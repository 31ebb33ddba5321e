//! The Elumatec machine-format engine: the working document of tag
//! records, the template codec that reads the on-disk grammar, and the
//! mapping rules that derive cut lists, job variables and option flags
//! from project data.
#![allow(unused_imports)]

pub mod data;
pub mod tag;
pub mod variant;

use vstd::prelude::*;
use crate::elumatec::tag::{
    attrs_wf, parse_assign, tag_text, upsert, Tag, TagView,
};
use crate::elumatec::variant::{Variant, VariantView};
use crate::text::{
    chars_string, copy_range, split_char, split_chars, str_chars, str_eq, trim_chars, trim_seq,
};

verus! {

/// The views of a tag vector.
pub open spec fn tags_view(tags: Seq<Tag>) -> Seq<TagView> {
    tags.map_values(|t: Tag| t@)
}

/// Every record of the document is well formed.
pub open spec fn tags_wf(tags: Seq<TagView>) -> bool {
    forall|i: int| 0 <= i < tags.len() ==> attrs_wf(#[trigger] tags[i].attrs)
}

/// First index of a record with the given name, or -1.
pub open spec fn tag_index(tags: Seq<TagView>, name: Seq<char>) -> int
    decreases tags.len(),
{
    if tags.len() == 0 {
        -1
    } else if tags[0].name == name {
        0
    } else {
        let r = tag_index(tags.drop_first(), name);
        if r < 0 {
            -1
        } else {
            1 + r
        }
    }
}

pub proof fn lemma_tag_index(tags: Seq<TagView>, name: Seq<char>)
    ensures
        tag_index(tags, name) == -1 ==> forall|j: int|
            0 <= j < tags.len() ==> (#[trigger] tags[j].name) != name,
        tag_index(tags, name) >= 0 ==> tag_index(tags, name) < tags.len() && tags[tag_index(
            tags,
            name,
        )].name == name && forall|j: int|
            0 <= j < tag_index(tags, name) ==> (#[trigger] tags[j].name) != name,
    decreases tags.len(),
{
    if tags.len() == 0 {
    } else if tags[0].name == name {
    } else {
        lemma_tag_index(tags.drop_first(), name);
        let d = tags.drop_first();
        let r = tag_index(d, name);
        if r < 0 {
            assert forall|j: int| 0 <= j < tags.len() implies (#[trigger] tags[j].name) != name by {
                if j > 0 {
                    assert(d[j - 1] == tags[j]);
                }
            }
        } else {
            assert(d[r] == tags[r + 1]);
            assert forall|j: int| 0 <= j < tag_index(tags, name) implies (#[trigger] tags[j].name)
                != name by {
                if j > 0 {
                    assert(d[j - 1] == tags[j]);
                }
            }
        }
    }
}

/// The document with `attr` set to `val` on the first record named
/// `name`; a new record with that one attribute is appended when none
/// carries the name.
pub open spec fn set_attr_spec(
    tags: Seq<TagView>,
    name: Seq<char>,
    attr: Seq<char>,
    val: VariantView,
) -> Seq<TagView> {
    let i = tag_index(tags, name);
    if i < 0 {
        tags.push(TagView { name: name, attrs: seq![(attr, val)] })
    } else {
        tags.update(i, TagView { name: tags[i].name, attrs: upsert(tags[i].attrs, attr, val) })
    }
}

/// The serialized text of a whole document: each record's text in
/// document order.
pub open spec fn document_text(tags: Seq<TagView>) -> Seq<char>
    decreases tags.len(),
{
    if tags.len() == 0 {
        Seq::<char>::empty()
    } else {
        tag_text(tags[0]) + document_text(tags.drop_first())
    }
}

proof fn lemma_document_text_snoc(tags: Seq<TagView>, x: TagView)
    ensures
        document_text(tags.push(x)) == document_text(tags) + tag_text(x),
    decreases tags.len(),
{
    let u = tags.push(x);
    assert(document_text(u) == tag_text(u[0]) + document_text(u.drop_first()));
    if tags.len() == 0 {
        assert(u[0] == x);
        assert(u.drop_first() =~= Seq::<TagView>::empty());
        assert(document_text(u) =~= document_text(tags) + tag_text(x));
    } else {
        assert(u.drop_first() =~= tags.drop_first().push(x));
        lemma_document_text_snoc(tags.drop_first(), x);
        assert(u[0] == tags[0]);
        assert(document_text(u) == tag_text(tags[0]) + (document_text(tags.drop_first())
            + tag_text(x)));
        assert(document_text(tags) == tag_text(tags[0]) + document_text(tags.drop_first()));
        assert(document_text(u) =~= document_text(tags) + tag_text(x));
    }
}

/// A template decode failure: the 1-based source line that is malformed.
#[derive(Clone, Copy, Debug, PartialEq, Eq, Structural)]
pub struct TemplateError {
    pub line: usize,
}

/// One line applied to the decoding state `(open record, finished
/// records)`: comments cut and surroundings trimmed, an empty line is
/// skipped, `:name` finishes the open record and opens a new one, any
/// other line assigns into the open record — or is ignored with none
/// open — and fails when it is not a clean `name = value`.
pub open spec fn line_step(st: (Option<TagView>, Seq<TagView>), line: Seq<char>) -> Result<
    (Option<TagView>, Seq<TagView>),
    (),
> {
    let t = trim_seq(crate::elumatec::tag::strip_comment(line));
    if t.len() == 0 {
        Ok(st)
    } else if t[0] == ':' {
        let finished = match st.0 {
            Some(open) => st.1.push(open),
            None => st.1,
        };
        Ok(
            (
                Some(TagView { name: t.skip(1), attrs: Seq::<(Seq<char>, VariantView)>::empty() }),
                finished,
            ),
        )
    } else {
        match st.0 {
            None => Ok(st),
            Some(open) => match parse_assign(line) {
                Option::Some(kv) => Ok(
                    (
                        Some(TagView { name: open.name, attrs: upsert(open.attrs, kv.0, kv.1) }),
                        st.1,
                    ),
                ),
                Option::None => Err(()),
            },
        }
    }
}

/// The first `k` lines applied in order; an error carries the 1-based
/// number of the offending line.
pub open spec fn run_lines(lines: Seq<Seq<char>>, k: int) -> Result<
    (Option<TagView>, Seq<TagView>),
    int,
>
    decreases k,
{
    if k <= 0 {
        Ok((None, Seq::<TagView>::empty()))
    } else {
        match run_lines(lines, k - 1) {
            Ok(st) => match line_step(st, lines[k - 1]) {
                Ok(st2) => Ok(st2),
                Err(_) => Err(k),
            },
            Err(e) => Err(e),
        }
    }
}

/// What decoding template text yields: the text split on newlines, the
/// lines applied in order, and the record still open at the end, if
/// any, finished last.
pub open spec fn parse_template(text: Seq<char>) -> Result<Seq<TagView>, int> {
    let lines = split_char(text, '\n');
    match run_lines(lines, lines.len() as int) {
        Ok(st) => Ok(
            match st.0 {
                Some(open) => st.1.push(open),
                None => st.1,
            },
        ),
        Err(e) => Err(e),
    }
}

/// The working document: an ordered sequence of tag records.
pub struct ElumatecExporter {
    tags: Vec<Tag>,
}

impl View for ElumatecExporter {
    type V = Seq<TagView>;

    closed spec fn view(&self) -> Seq<TagView> {
        tags_view(self.tags@)
    }
}

impl Default for ElumatecExporter {
    /// The empty document.
    fn default() -> (r: Self)
        ensures
            r@ == Seq::<TagView>::empty(),
            r.wf(),
    {
        let r = ElumatecExporter { tags: Vec::new() };
        proof {
            assert(tags_view(r.tags@) =~= Seq::<TagView>::empty());
        }
        r
    }
}

impl ElumatecExporter {
    /// Every record of this document is well formed.
    pub open spec fn wf(&self) -> bool {
        tags_wf(self@)
    }

    /// Number of records.
    pub fn tag_count(&self) -> (r: usize)
        ensures
            r == self@.len(),
    {
        self.tags.len()
    }

    /// The record at `i`.
    pub fn tag_at(&self, i: usize) -> (r: &Tag)
        requires
            i < self@.len(),
        ensures
            r@ == self@[i as int],
    {
        &self.tags[i]
    }

    /// Append a record to the document.
    pub fn push_tag(&mut self, tag: Tag)
        requires
            old(self).wf(),
            tag.wf(),
        ensures
            final(self)@ == old(self)@.push(tag@),
            final(self).wf(),
    {
        self.tags.push(tag);
        proof {
            assert(tags_view(self.tags@) =~= tags_view(old(self).tags@).push(
                self.tags@.last()@,
            ));
        }
    }

    /// Drop every record.
    pub fn clear_tags(&mut self)
        ensures
            final(self)@ == Seq::<TagView>::empty(),
            final(self).wf(),
    {
        self.tags = Vec::new();
        proof {
            assert(tags_view(self.tags@) =~= Seq::<TagView>::empty());
        }
    }

    /// Whether some record carries this name.
    pub fn has_tag(&self, tag_name: &str) -> (r: bool)
        ensures
            r == (tag_index(self@, tag_name@) >= 0),
    {
        let n = self.tags.len();
        let mut i: usize = 0;
        proof {
            lemma_tag_index(self@, tag_name@);
        }
        while i < n
            invariant
                0 <= i <= n,
                n == self.tags@.len(),
                forall|j: int| 0 <= j < i ==> (#[trigger] tags_view(self.tags@)[j].name)
                    != tag_name@,
                tag_index(self@, tag_name@) >= 0 ==> tag_index(self@, tag_name@)
                    < self.tags@.len() && tags_view(self.tags@)[tag_index(self@, tag_name@)].name
                    == tag_name@,
                tag_index(self@, tag_name@) == -1 ==> forall|j: int|
                    0 <= j < self.tags@.len() ==> (#[trigger] tags_view(self.tags@)[j].name)
                        != tag_name@,
            decreases n - i,
        {
            proof {
                assert(tags_view(self.tags@)[i as int] == self.tags@[i as int]@);
            }
            if str_eq(self.tags[i].name(), tag_name) {
                return true;
            }
            i += 1;
        }
        false
    }

    /// Set `attr` to `value` on the first record named `tag_name`,
    /// appending a new record of that name when none exists.
    pub fn set_attribute(&mut self, tag_name: &str, attr: &str, value: Variant)
        requires
            old(self).wf(),
        ensures
            final(self)@ == set_attr_spec(old(self)@, tag_name@, attr@, value@),
            final(self).wf(),
    {
        let ghost old_tags = self@;
        proof {
            lemma_tag_index(self@, tag_name@);
        }
        let n = self.tags.len();
        let mut i: usize = 0;
        while i < n
            invariant
                0 <= i <= n,
                n == self.tags@.len(),
                old_tags == tags_view(self.tags@),
                old_tags == old(self)@,
                tags_wf(old_tags),
                forall|j: int| 0 <= j < i ==> (#[trigger] tags_view(self.tags@)[j].name)
                    != tag_name@,
                tag_index(old_tags, tag_name@) >= 0 ==> tag_index(old_tags, tag_name@)
                    < self.tags@.len() && tags_view(self.tags@)[tag_index(old_tags, tag_name@)].name
                    == tag_name@ && forall|j: int|
                    0 <= j < tag_index(old_tags, tag_name@) ==> (#[trigger] tags_view(
                        self.tags@,
                    )[j].name) != tag_name@,
                tag_index(old_tags, tag_name@) == -1 ==> forall|j: int|
                    0 <= j < self.tags@.len() ==> (#[trigger] tags_view(self.tags@)[j].name)
                        != tag_name@,
            decreases n - i,
        {
            proof {
                assert(tags_view(self.tags@)[i as int] == self.tags@[i as int]@);
            }
            if str_eq(self.tags[i].name(), tag_name) {
                proof {
                    let k = tag_index(old_tags, tag_name@);
                    assert(k >= 0);
                    if k < i {
                        assert(tags_view(self.tags@)[k].name == tag_name@);
                    }
                    if k > i {
                        assert(tags_view(self.tags@)[i as int].name != tag_name@);
                    }
                    assert(k == i);
                }
                let mut t = self.tags[i].duplicate();
                t.set(attr, value);
                self.tags.set(i, t);
                proof {
                    assert(tags_view(self.tags@) =~= set_attr_spec(
                        old_tags,
                        tag_name@,
                        attr@,
                        value@,
                    ));
                }
                return ;
            }
            i += 1;
        }
        proof {
            let k = tag_index(old_tags, tag_name@);
            assert(k == -1) by {
                if k >= 0 {
                    assert(tags_view(self.tags@)[k].name == tag_name@);
                }
            }
        }
        let mut t = Tag::new(tag_name);
        t.set(attr, value);
        self.tags.push(t);
        proof {
            assert(upsert(Seq::<(Seq<char>, VariantView)>::empty(), attr@, value@) =~= seq![
                (attr@, value@),
            ]);
            assert(tags_view(self.tags@) =~= set_attr_spec(old_tags, tag_name@, attr@, value@));
        }
    }

    /// Decode template text into a document, or name the first bad line.
    pub fn read_template(template: &str) -> (r: Result<ElumatecExporter, TemplateError>)
        ensures
            match r {
                Ok(ex) => parse_template(template@) == Ok::<Seq<TagView>, int>(ex@) && ex.wf(),
                Err(e) => parse_template(template@) == Err::<Seq<TagView>, int>(e.line as int),
            },
    {
        let chars = str_chars(template);
        let lines = split_chars(&chars, '\n');
        let ghost lines_v = split_char(template@, '\n');
        let mut cur: Option<Tag> = None;
        let mut acc: Vec<Tag> = Vec::new();
        let total = lines.len();
        let mut k: usize = 0;
        proof {
            assert(lines.deep_view() == lines_v);
            assert(tags_view(acc@) =~= Seq::<TagView>::empty());
        }
        while k < total
            invariant
                0 <= k <= total,
                total == lines@.len(),
                lines.deep_view() == lines_v,
                lines_v == split_char(template@, '\n'),
                run_lines(lines_v, k as int) == Ok::<(Option<TagView>, Seq<TagView>), int>(
                    (opt_tag_view(cur), tags_view(acc@)),
                ),
                match cur {
                    Some(t) => t.wf(),
                    None => true,
                },
                tags_wf(tags_view(acc@)),
            decreases total - k,
        {
            proof {
                assert(lines.deep_view()[k as int] == lines@[k as int]@);
            }
            let ghost line_v = lines_v[k as int];
            let stripped = crate::elumatec::tag::strip_comment_chars(&lines[k]);
            let t = trim_chars(&stripped);
            proof {
                assert(t@ == trim_seq(crate::elumatec::tag::strip_comment(line_v)));
            }
            let ghost st = (opt_tag_view(cur), tags_view(acc@));
            if t.len() == 0 {
                proof {
                    assert(line_step(st, line_v) == Ok::<(Option<TagView>, Seq<TagView>), ()>(st));
                }
            } else if t[0] == ':' {
                match cur {
                    Some(open) => {
                        let ghost old_acc = tags_view(acc@);
                        acc.push(open);
                        proof {
                            assert(tags_view(acc@) =~= old_acc.push(acc@.last()@));
                        }
                    },
                    None => {},
                }
                let rest = copy_range(&t, 1, t.len());
                let name = chars_string(&rest);
                cur = Some(Tag::new(name.as_str()));
                proof {
                    assert(rest@ =~= t@.skip(1));
                    assert(line_step(st, line_v) == Ok::<(Option<TagView>, Seq<TagView>), ()>(
                        (opt_tag_view(cur), tags_view(acc@)),
                    ));
                }
            } else {
                match &mut cur {
                    Some(open) => {
                        let res = open.update_attributes_chars(&lines[k]);
                        if res.is_none() {
                            proof {
                                assert(parse_assign(line_v) is None);
                                assert(line_step(st, line_v) == Err::<
                                    (Option<TagView>, Seq<TagView>),
                                    (),
                                >(()));
                                assert(run_lines(lines_v, k + 1) == Err::<
                                    (Option<TagView>, Seq<TagView>),
                                    int,
                                >(k + 1));
                                lemma_run_lines_err(lines_v, k + 1, lines_v.len() as int);
                            }
                            return Err(TemplateError { line: k + 1 });
                        }
                        proof {
                            assert(parse_assign(line_v) is Some);
                            assert(line_step(st, line_v) == Ok::<
                                (Option<TagView>, Seq<TagView>),
                                (),
                            >((opt_tag_view(cur), tags_view(acc@))));
                        }
                    },
                    None => {
                        proof {
                            assert(line_step(st, line_v) == Ok::<
                                (Option<TagView>, Seq<TagView>),
                                (),
                            >(st));
                        }
                    },
                }
            }
            proof {
                assert(run_lines(lines_v, k + 1) == Ok::<(Option<TagView>, Seq<TagView>), int>(
                    (opt_tag_view(cur), tags_view(acc@)),
                ));
            }
            k += 1;
        }
        proof {
            assert(run_lines(lines_v, lines_v.len() as int) == Ok::<
                (Option<TagView>, Seq<TagView>),
                int,
            >((opt_tag_view(cur), tags_view(acc@))));
        }
        match cur {
            Some(open) => {
                let ghost old_acc = tags_view(acc@);
                acc.push(open);
                proof {
                    assert(tags_view(acc@) =~= old_acc.push(acc@.last()@));
                }
            },
            None => {},
        }
        let ex = ElumatecExporter { tags: acc };
        Ok(ex)
    }

    /// Serialize the whole document: each record's text in document
    /// order.
    pub fn to_string(&self) -> (r: String)
        ensures
            r@ == document_text(self@),
    {
        let mut out: Vec<char> = Vec::new();
        let n = self.tags.len();
        let mut i: usize = 0;
        proof {
            assert(self@.take(0) =~= Seq::<TagView>::empty());
            assert(out@ =~= document_text(self@.take(0)));
        }
        while i < n
            invariant
                0 <= i <= n,
                n == self.tags@.len(),
                out@ == document_text(self@.take(i as int)),
            decreases n - i,
        {
            proof {
                assert(tags_view(self.tags@)[i as int] == self.tags@[i as int]@);
            }
            let text = self.tags[i].to_string();
            let text_chars = str_chars(text.as_str());
            crate::text::push_all(&mut out, &text_chars);
            proof {
                assert(self@.take(i + 1) =~= self@.take(i as int).push(self@[i as int]));
                lemma_document_text_snoc(self@.take(i as int), self@[i as int]);
            }
            i += 1;
        }
        proof {
            assert(self@.take(n as int) =~= self@);
        }
        chars_string(&out)
    }
}

/// Bits of the IEEE binary32 zero.
pub open spec fn zero_bits() -> u32 {
    0u32
}

/// The attributes a flat-export cut record carries, in the order they
/// are set.
pub open spec fn flat_cut_attrs(p: data::FlatProfile, no: i32) -> Seq<(Seq<char>, VariantView)> {
    seq![
        (("CNo")@, VariantView::Int(no)),
        (("CLength")@, VariantView::Float(p.length)),
        (("CAngleLH")@, VariantView::Float(p.angle_lh)),
        (("CAngleRH")@, VariantView::Float(p.angle_rh)),
        (("CAngleLV")@, VariantView::Float(p.angle_lv)),
        (("CAngleRV")@, VariantView::Float(p.angle_rv)),
        (("CRotation")@, VariantView::Float(zero_bits())),
        (("CSawRotation")@, VariantView::Float(zero_bits())),
    ]
}

/// The cut record a flat-export profile article yields.
pub open spec fn flat_cut_tag(p: data::FlatProfile, no: i32) -> TagView {
    TagView { name: ("CUT")@, attrs: flat_cut_attrs(p, no) }
}

/// The cut records of the first `k` articles: one per article of type
/// `profile` that carries cut data, numbered 1-based in order of
/// appearance.
pub open spec fn flat_cuts_upto(articles: Seq<data::FlatArticleView>, k: int) -> Seq<TagView>
    decreases k,
{
    if k <= 0 {
        Seq::<TagView>::empty()
    } else {
        let prev = flat_cuts_upto(articles, k - 1);
        let a = articles[k - 1];
        if a.kind == ("profile")@ && a.profile is Some {
            prev.push(flat_cut_tag(a.profile->0, (prev.len() + 1) as i32))
        } else {
            prev
        }
    }
}

/// Each record given a `CCount` attribute holding `count`.
pub open spec fn with_ccount(tags: Seq<TagView>, count: i32) -> Seq<TagView> {
    tags.map_values(
        |t: TagView| TagView {
            name: t.name,
            attrs: t.attrs.push((("CCount")@, VariantView::Int(count))),
        },
    )
}

/// What building from a flat export yields: an `OPTIONS` record with
/// the fixed defaults, then one `CUT` record per profile article, each
/// carrying the total count.
pub open spec fn file_doc(tags0: Seq<TagView>, articles: Seq<data::FlatArticleView>) -> Seq<
    TagView,
> {
    let t1 = set_attr_spec(tags0, ("OPTIONS")@, ("OScale")@, VariantView::Int(1));
    let t2 = set_attr_spec(t1, ("OPTIONS")@, ("OCreator")@, VariantView::String(("Elucad")@));
    let cuts = flat_cuts_upto(articles, articles.len() as int);
    t2 + with_ccount(cuts, cuts.len() as i32)
}

/// Keys of the flat-export cut attributes are distinct from each other
/// and from `CCount`.
proof fn lemma_flat_cut_keys()
    ensures
        forall|p: data::FlatProfile, no: i32| attrs_wf(#[trigger] flat_cut_attrs(p, no)),
        forall|p: data::FlatProfile, no: i32, j: int|
            0 <= j < flat_cut_attrs(p, no).len() ==> (#[trigger] flat_cut_attrs(p, no)[j].0)
                != ("CCount")@,
{
    reveal_strlit("CNo");
    reveal_strlit("CLength");
    reveal_strlit("CAngleLH");
    reveal_strlit("CAngleRH");
    reveal_strlit("CAngleLV");
    reveal_strlit("CAngleRV");
    reveal_strlit("CRotation");
    reveal_strlit("CSawRotation");
    reveal_strlit("CCount");
    assert(("CAngleLH")@[6] == 'L' && ("CAngleRH")@[6] == 'R');
    assert(("CAngleLV")@[6] == 'L' && ("CAngleRV")@[6] == 'R');
    assert(("CAngleLH")@[7] == 'H' && ("CAngleLV")@[7] == 'V');
    assert(("CAngleRH")@[7] == 'H' && ("CAngleRV")@[7] == 'V');
    assert forall|p: data::FlatProfile, no: i32| attrs_wf(#[trigger] flat_cut_attrs(p, no)) by {
        let s = flat_cut_attrs(p, no);
        assert forall|a: int, b: int| 0 <= a < b < s.len() implies s[a].0 != s[b].0 by {
            assert(("CNo")@.len() == 3);
            assert(("CLength")@.len() == 7);
            assert(("CAngleLH")@.len() == 8);
            assert(("CRotation")@.len() == 9);
            assert(("CSawRotation")@.len() == 12);
        }
    }
    assert forall|p: data::FlatProfile, no: i32, j: int|
        0 <= j < flat_cut_attrs(p, no).len() implies (#[trigger] flat_cut_attrs(p, no)[j].0) != (
    "CCount")@ by {
        assert(("CCount")@.len() == 6);
    }
}

/// Flat-export cut records are well formed and carry no `CCount` yet.
proof fn lemma_flat_cuts_shape(articles: Seq<data::FlatArticleView>, k: int)
    ensures
        tags_wf(flat_cuts_upto(articles, k)),
        forall|j: int, q: int|
            0 <= j < flat_cuts_upto(articles, k).len() && 0 <= q < flat_cuts_upto(
                articles,
                k,
            )[j].attrs.len() ==> (#[trigger] flat_cuts_upto(articles, k)[j].attrs[q].0) != (
        "CCount")@,
        flat_cuts_upto(articles, k).len() <= if k >= 0 {
            k
        } else {
            0
        },
    decreases k,
{
    lemma_flat_cut_keys();
    if k > 0 {
        lemma_flat_cuts_shape(articles, k - 1);
    }
}

/// A key none of the attributes carries is appended by `upsert`.
proof fn lemma_upsert_new(
    attrs: Seq<(Seq<char>, VariantView)>,
    k: Seq<char>,
    v: VariantView,
)
    requires
        forall|j: int| 0 <= j < attrs.len() ==> (#[trigger] attrs[j].0) != k,
    ensures
        upsert(attrs, k, v) == attrs.push((k, v)),
{
    crate::elumatec::tag::lemma_key_index(attrs, k);
    let i = crate::elumatec::tag::key_index(attrs, k);
    if i >= 0 {
        assert(attrs[i].0 == k);
    }
}

impl ElumatecExporter {
    /// Build one flat-export cut record.
    fn build_flat_cut(p: &data::FlatProfile, no: i32) -> (t: Tag)
        ensures
            t@ == flat_cut_tag(*p, no),
            t.wf(),
    {
        let mut t = Tag::new("CUT");
        proof {
            lemma_flat_cut_keys();
        }
        let ghost want = flat_cut_attrs(*p, no);
        t.set("CNo", Variant::Int(no));
        proof {
            lemma_upsert_new(want.take(0), ("CNo")@, VariantView::Int(no));
            assert(t@.attrs =~= want.take(1));
        }
        t.set("CLength", Variant::Float(p.length));
        proof {
            lemma_upsert_new(want.take(1), ("CLength")@, VariantView::Float(p.length));
            assert(t@.attrs =~= want.take(2));
        }
        t.set("CAngleLH", Variant::Float(p.angle_lh));
        proof {
            lemma_upsert_new(want.take(2), ("CAngleLH")@, VariantView::Float(p.angle_lh));
            assert(t@.attrs =~= want.take(3));
        }
        t.set("CAngleRH", Variant::Float(p.angle_rh));
        proof {
            lemma_upsert_new(want.take(3), ("CAngleRH")@, VariantView::Float(p.angle_rh));
            assert(t@.attrs =~= want.take(4));
        }
        t.set("CAngleLV", Variant::Float(p.angle_lv));
        proof {
            lemma_upsert_new(want.take(4), ("CAngleLV")@, VariantView::Float(p.angle_lv));
            assert(t@.attrs =~= want.take(5));
        }
        t.set("CAngleRV", Variant::Float(p.angle_rv));
        proof {
            lemma_upsert_new(want.take(5), ("CAngleRV")@, VariantView::Float(p.angle_rv));
            assert(t@.attrs =~= want.take(6));
        }
        t.set("CRotation", Variant::Float(0));
        proof {
            lemma_upsert_new(want.take(6), ("CRotation")@, VariantView::Float(zero_bits()));
            assert(t@.attrs =~= want.take(7));
        }
        t.set("CSawRotation", Variant::Float(0));
        proof {
            lemma_upsert_new(want.take(7), ("CSawRotation")@, VariantView::Float(zero_bits()));
            assert(want.take(8) =~= want);
            assert(t@.attrs =~= want);
            assert(t@ =~= flat_cut_tag(*p, no));
        }
        t
    }

    /// Populate this document from a flat export: the fixed `OPTIONS`
    /// defaults, then one `CUT` record per profile article with
    /// cumulative numbering and the total count.
    pub fn update_from_file(&mut self, file: &data::FlatExport)
        requires
            old(self).wf(),
            file@.articles.len() < 0x8000_0000,
        ensures
            final(self)@ == file_doc(old(self)@, file@.articles),
            final(self).wf(),
    {
        self.set_attribute("OPTIONS", "OScale", Variant::Int(1));
        self.set_attribute("OPTIONS", "OCreator", Variant::String("Elucad".to_owned()));
        let ghost base = self@;
        let ghost articles_v = file@.articles;
        let mut cut_tags: Vec<Tag> = Vec::new();
        let n = file.articles.len();
        let mut i: usize = 0;
        proof {
            assert(tags_view(cut_tags@) =~= flat_cuts_upto(articles_v, 0));
        }
        while i < n
            invariant
                0 <= i <= n,
                n == file.articles@.len(),
                articles_v == file@.articles,
                n < 0x8000_0000,
                tags_view(cut_tags@) == flat_cuts_upto(articles_v, i as int),
                cut_tags@.len() <= i,
                tags_wf(tags_view(cut_tags@)),
            decreases n - i,
        {
            proof {
                assert(articles_v[i as int] == file.articles@[i as int]@);
            }
            let is_profile = str_eq(file.articles[i].kind.as_str(), "profile");
            if is_profile {
                match &file.articles[i].profile {
                    Some(p) => {
                        let no = (cut_tags.len() + 1) as i32;
                        let t = Self::build_flat_cut(p, no);
                        let ghost old_cuts = tags_view(cut_tags@);
                        cut_tags.push(t);
                        proof {
                            assert(tags_view(cut_tags@) =~= old_cuts.push(cut_tags@.last()@));
                            assert(tags_view(cut_tags@) =~= flat_cuts_upto(articles_v, i + 1));
                        }
                    },
                    None => {
                        proof {
                            assert(flat_cuts_upto(articles_v, i + 1) == flat_cuts_upto(
                                articles_v,
                                i as int,
                            ));
                        }
                    },
                }
            } else {
                proof {
                    assert(flat_cuts_upto(articles_v, i + 1) == flat_cuts_upto(
                        articles_v,
                        i as int,
                    ));
                }
            }
            i += 1;
        }
        proof {
            lemma_flat_cuts_shape(articles_v, n as int);
        }
        self.append_with_ccount(&cut_tags);
        proof {
            assert(self@ =~= file_doc(old(self)@, articles_v));
        }
    }
}

/// Why cut mapping gave up: the data lacked what the cut list needs.
#[derive(Clone, Copy, Debug, PartialEq, Eq, Structural)]
pub enum CutError {
    /// The structure views field is null.
    StructureViewsMissing,
    /// The structure views array is empty.
    StructureViewsEmpty,
    /// The first view carries no nomenclature profiles.
    ProfilesMissing,
    /// A profile lacks its length or one of its extremity cut arrays.
    FieldMissing,
    /// A profile's second extremity has fewer cuts than its first.
    ExtremityMismatch,
}

/// The attributes an API cut record carries, in the order they are set.
pub open spec fn api_cut_attrs(len_bits: u32, c1: data::ApiCut, c2: data::ApiCut, no: i32) -> Seq<
    (Seq<char>, VariantView),
> {
    seq![
        (("CLength")@, VariantView::Float(len_bits)),
        (("CNo")@, VariantView::Int(no)),
        (("CAngleLH")@, VariantView::Float(c1.h)),
        (("CAngleLV")@, VariantView::Float(c1.v)),
        (("CutLossL")@, VariantView::Float(c1.z)),
        (("CAngleRH")@, VariantView::Float(c2.h)),
        (("CAngleRV")@, VariantView::Float(c2.v)),
        (("CutLossR")@, VariantView::Float(crate::elumatec::variant::single_add(len_bits, c2.z))),
    ]
}

/// The cut record one extremity-cut pair of a profile yields.
pub open spec fn api_cut_tag(len_bits: u32, c1: data::ApiCut, c2: data::ApiCut, no: i32) -> TagView {
    TagView { name: ("CUT")@, attrs: api_cut_attrs(len_bits, c1, c2, no) }
}

/// The cut records of one profile, numbered from `start + 1`: one per
/// first-extremity cut, paired with the same-indexed second-extremity
/// cut.
pub open spec fn profile_cuts(p: data::ApiProfileView, start: int) -> Result<Seq<TagView>, CutError> {
    if p.length is None || p.ext1 is None || p.ext2 is None {
        Err(CutError::FieldMissing)
    } else if p.ext2->0.len() < p.ext1->0.len() {
        Err(CutError::ExtremityMismatch)
    } else {
        Ok(
            Seq::new(
                p.ext1->0.len(),
                |i: int| api_cut_tag(p.length->0, p.ext1->0[i], p.ext2->0[i], (start + i + 1) as i32),
            ),
        )
    }
}

/// The cut records of the first `k` profiles, numbered cumulatively
/// across profiles.
pub open spec fn profiles_cuts(ps: Seq<data::ApiProfileView>, k: int) -> Result<
    Seq<TagView>,
    CutError,
>
    decreases k,
{
    if k <= 0 {
        Ok(Seq::<TagView>::empty())
    } else {
        match profiles_cuts(ps, k - 1) {
            Ok(acc) => match profile_cuts(ps[k - 1], acc.len() as int) {
                Ok(c) => Ok(acc + c),
                Err(e) => Err(e),
            },
            Err(e) => Err(e),
        }
    }
}

/// What cut mapping yields on the given project data: the cut records
/// of the first structure view's profiles, or why none can be built.
pub open spec fn api_cuts_spec(d: data::ProjectDataView) -> Result<Seq<TagView>, CutError> {
    match d.structure_views {
        Option::None => Err(CutError::StructureViewsMissing),
        Option::Some(views) => if views.len() == 0 {
            Err(CutError::StructureViewsEmpty)
        } else {
            match views[0].profiles {
                Option::None => Err(CutError::ProfilesMissing),
                Option::Some(ps) => profiles_cuts(ps, ps.len() as int),
            }
        },
    }
}

/// Every prefix of the cut list stays within 32-bit numbering.
pub open spec fn api_cuts_bounded(d: data::ProjectDataView) -> bool {
    match d.structure_views {
        Option::Some(views) => views.len() > 0 ==> match views[0].profiles {
            Option::Some(ps) => forall|k: int|
                0 <= k <= ps.len() ==> match #[trigger] profiles_cuts(ps, k) {
                    Ok(c) => c.len() < 0x8000_0000,
                    Err(_) => true,
                },
            Option::None => true,
        },
        Option::None => true,
    }
}

/// Once a prefix of the profiles fails, the whole run fails the same
/// way.
proof fn lemma_profiles_cuts_err(ps: Seq<data::ApiProfileView>, k: int, n: int)
    requires
        0 < k <= n,
        profiles_cuts(ps, k) is Err,
    ensures
        profiles_cuts(ps, n) == profiles_cuts(ps, k),
    decreases n - k,
{
    if k < n {
        lemma_profiles_cuts_err(ps, k + 1, n);
    }
}

/// API cut record keys are distinct from each other and from `CCount`.
proof fn lemma_api_cut_keys()
    ensures
        forall|l: u32, c1: data::ApiCut, c2: data::ApiCut, no: i32|
            attrs_wf(#[trigger] api_cut_attrs(l, c1, c2, no)),
        forall|l: u32, c1: data::ApiCut, c2: data::ApiCut, no: i32, j: int|
            0 <= j < api_cut_attrs(l, c1, c2, no).len() ==> (#[trigger] api_cut_attrs(
                l,
                c1,
                c2,
                no,
            )[j].0) != ("CCount")@,
{
    reveal_strlit("CLength");
    reveal_strlit("CNo");
    reveal_strlit("CAngleLH");
    reveal_strlit("CAngleLV");
    reveal_strlit("CutLossL");
    reveal_strlit("CAngleRH");
    reveal_strlit("CAngleRV");
    reveal_strlit("CutLossR");
    reveal_strlit("CCount");
    assert(("CAngleLH")@[1] == 'A' && ("CutLossL")@[1] == 'u');
    assert(("CAngleLH")@[6] == 'L' && ("CAngleRH")@[6] == 'R');
    assert(("CAngleLV")@[6] == 'L' && ("CAngleRV")@[6] == 'R');
    assert(("CAngleLH")@[7] == 'H' && ("CAngleLV")@[7] == 'V');
    assert(("CAngleRH")@[7] == 'H' && ("CAngleRV")@[7] == 'V');
    assert(("CutLossL")@[7] == 'L' && ("CutLossR")@[7] == 'R');
    assert forall|l: u32, c1: data::ApiCut, c2: data::ApiCut, no: i32|
        attrs_wf(#[trigger] api_cut_attrs(l, c1, c2, no)) by {
        let s = api_cut_attrs(l, c1, c2, no);
        assert forall|a: int, b: int| 0 <= a < b < s.len() implies s[a].0 != s[b].0 by {
            assert(("CLength")@.len() == 7);
            assert(("CNo")@.len() == 3);
            assert(("CAngleLH")@.len() == 8);
            assert(("CutLossL")@.len() == 8);
        }
    }
    assert forall|l: u32, c1: data::ApiCut, c2: data::ApiCut, no: i32, j: int|
        0 <= j < api_cut_attrs(l, c1, c2, no).len() implies (#[trigger] api_cut_attrs(
        l,
        c1,
        c2,
        no,
    )[j].0) != ("CCount")@ by {
        assert(("CCount")@.len() == 6);
    }
}

impl ElumatecExporter {
    /// Build one API cut record.
    fn build_api_cut(len_bits: u32, c1: &data::ApiCut, c2: &data::ApiCut, no: i32) -> (t: Tag)
        ensures
            t@ == api_cut_tag(len_bits, *c1, *c2, no),
            t.wf(),
    {
        let mut t = Tag::new("CUT");
        proof {
            lemma_api_cut_keys();
        }
        let ghost want = api_cut_attrs(len_bits, *c1, *c2, no);
        t.set("CLength", Variant::Float(len_bits));
        proof {
            lemma_upsert_new(want.take(0), ("CLength")@, VariantView::Float(len_bits));
            assert(t@.attrs =~= want.take(1));
        }
        t.set("CNo", Variant::Int(no));
        proof {
            lemma_upsert_new(want.take(1), ("CNo")@, VariantView::Int(no));
            assert(t@.attrs =~= want.take(2));
        }
        t.set("CAngleLH", Variant::Float(c1.h));
        proof {
            lemma_upsert_new(want.take(2), ("CAngleLH")@, VariantView::Float(c1.h));
            assert(t@.attrs =~= want.take(3));
        }
        t.set("CAngleLV", Variant::Float(c1.v));
        proof {
            lemma_upsert_new(want.take(3), ("CAngleLV")@, VariantView::Float(c1.v));
            assert(t@.attrs =~= want.take(4));
        }
        t.set("CutLossL", Variant::Float(c1.z));
        proof {
            lemma_upsert_new(want.take(4), ("CutLossL")@, VariantView::Float(c1.z));
            assert(t@.attrs =~= want.take(5));
        }
        t.set("CAngleRH", Variant::Float(c2.h));
        proof {
            lemma_upsert_new(want.take(5), ("CAngleRH")@, VariantView::Float(c2.h));
            assert(t@.attrs =~= want.take(6));
        }
        t.set("CAngleRV", Variant::Float(c2.v));
        proof {
            lemma_upsert_new(want.take(6), ("CAngleRV")@, VariantView::Float(c2.v));
            assert(t@.attrs =~= want.take(7));
        }
        let loss_r = crate::elumatec::variant::add_single(len_bits, c2.z);
        t.set("CutLossR", Variant::Float(loss_r));
        proof {
            lemma_upsert_new(
                want.take(7),
                ("CutLossR")@,
                VariantView::Float(crate::elumatec::variant::single_add(len_bits, c2.z)),
            );
            assert(want.take(8) =~= want);
            assert(t@.attrs =~= want);
            assert(t@ =~= api_cut_tag(len_bits, *c1, *c2, no));
        }
        t
    }

    /// Append each record of `cut_tags`, given a `CCount` attribute
    /// holding their total number.
    fn append_with_ccount(&mut self, cut_tags: &Vec<Tag>)
        requires
            old(self).wf(),
            tags_wf(tags_view(cut_tags@)),
            cut_tags@.len() < 0x8000_0000,
            forall|j: int, q: int|
                0 <= j < cut_tags@.len() && 0 <= q < tags_view(cut_tags@)[j].attrs.len() ==> (
                #[trigger] tags_view(cut_tags@)[j].attrs[q].0) != ("CCount")@,
        ensures
            final(self)@ == old(self)@ + with_ccount(
                tags_view(cut_tags@),
                cut_tags@.len() as i32,
            ),
            final(self).wf(),
    {
        let ghost cuts_v = tags_view(cut_tags@);
        let ghost base = self@;
        let count = cut_tags.len() as i32;
        let total = cut_tags.len();
        let mut k: usize = 0;
        proof {
            assert(self@ =~= base + with_ccount(cuts_v, count).take(0));
        }
        while k < total
            invariant
                0 <= k <= total,
                total == cut_tags@.len(),
                cuts_v == tags_view(cut_tags@),
                tags_wf(cuts_v),
                count as int == cuts_v.len(),
                self@ == base + with_ccount(cuts_v, count).take(k as int),
                self.wf(),
                forall|j: int, q: int|
                    0 <= j < cuts_v.len() && 0 <= q < cuts_v[j].attrs.len() ==> (
                    #[trigger] cuts_v[j].attrs[q].0) != ("CCount")@,
            decreases total - k,
        {
            proof {
                assert(tags_view(cut_tags@)[k as int] == cut_tags@[k as int]@);
            }
            let mut t = cut_tags[k].duplicate();
            t.set("CCount", Variant::Int(count));
            self.push_tag(t);
            proof {
                lemma_upsert_new(cuts_v[k as int].attrs, ("CCount")@, VariantView::Int(count));
                assert(with_ccount(cuts_v, count)[k as int] == TagView {
                    name: cuts_v[k as int].name,
                    attrs: cuts_v[k as int].attrs.push((("CCount")@, VariantView::Int(count))),
                });
                assert(with_ccount(cuts_v, count).take(k + 1) =~= with_ccount(
                    cuts_v,
                    count,
                ).take(k as int).push(with_ccount(cuts_v, count)[k as int]));
                assert(self@ =~= base + with_ccount(cuts_v, count).take(k + 1));
            }
            k += 1;
        }
        proof {
            assert(with_ccount(cuts_v, count).take(total as int) =~= with_ccount(cuts_v, count));
        }
    }

    /// Cut-list mapping: from the first structure view's profiles,
    /// build one `CUT` record per first-extremity cut, numbered
    /// cumulatively across profiles, each carrying the total count; on
    /// failure the document is unchanged.
    pub fn update_cuts(&mut self, data: &data::ProjectData) -> (r: Result<(), CutError>)
        requires
            old(self).wf(),
            api_cuts_bounded(data@),
        ensures
            final(self).wf(),
            match api_cuts_spec(data@) {
                Ok(cuts) => r is Ok && final(self)@ == old(self)@ + with_ccount(
                    cuts,
                    cuts.len() as i32,
                ),
                Err(e) => r == Err::<(), CutError>(e) && final(self)@ == old(self)@,
            },
    {
        let views = match &data.structure_views {
            Some(v) => v,
            None => {
                return Err(CutError::StructureViewsMissing);
            },
        };
        if views.len() == 0 {
            proof {
                assert(data@.structure_views->0.len() == 0);
            }
            return Err(CutError::StructureViewsEmpty);
        }
        proof {
            assert(data@.structure_views->0[0] == views@[0]@);
        }
        let profiles = match &views[0].profiles {
            Some(ps) => ps,
            None => {
                return Err(CutError::ProfilesMissing);
            },
        };
        let ghost ps_v = data@.structure_views->0[0].profiles->0;
        let mut cut_tags: Vec<Tag> = Vec::new();
        let n = profiles.len();
        let mut pi: usize = 0;
        proof {
            assert(tags_view(cut_tags@) =~= Seq::<TagView>::empty());
        }
        while pi < n
            invariant
                0 <= pi <= n,
                n == profiles@.len(),
                ps_v == profiles@.map_values(|p: data::ApiProfile| p@),
                self@ == old(self)@,
                self.wf(),
                api_cuts_spec(data@) == profiles_cuts(ps_v, ps_v.len() as int),
                ps_v.len() == n,
                forall|k: int| 0 <= k <= ps_v.len() ==> match #[trigger] profiles_cuts(ps_v, k) {
                    Ok(c) => c.len() < 0x8000_0000,
                    Err(_) => true,
                },
                profiles_cuts(ps_v, pi as int) == Ok::<Seq<TagView>, CutError>(
                    tags_view(cut_tags@),
                ),
                tags_wf(tags_view(cut_tags@)),
                forall|j: int, q: int|
                    0 <= j < cut_tags@.len() && 0 <= q < tags_view(cut_tags@)[j].attrs.len() ==> (
                    #[trigger] tags_view(cut_tags@)[j].attrs[q].0) != ("CCount")@,
            decreases n - pi,
        {
            proof {
                assert(ps_v[pi as int] == profiles@[pi as int]@);
            }
            let ghost start0 = cut_tags@.len() as int;
            let p = &profiles[pi];
            let len_bits = match p.length {
                Some(l) => l,
                None => {
                    proof {
                        assert(profile_cuts(ps_v[pi as int], start0) == Err::<Seq<TagView>, CutError>(
                            CutError::FieldMissing,
                        ));
                        lemma_profiles_cuts_err(ps_v, pi + 1, ps_v.len() as int);
                    }
                    return Err(CutError::FieldMissing);
                },
            };
            let ext1 = match &p.ext1 {
                Some(e) => e,
                None => {
                    proof {
                        assert(profile_cuts(ps_v[pi as int], start0) == Err::<Seq<TagView>, CutError>(
                            CutError::FieldMissing,
                        ));
                        lemma_profiles_cuts_err(ps_v, pi + 1, ps_v.len() as int);
                    }
                    return Err(CutError::FieldMissing);
                },
            };
            let ext2 = match &p.ext2 {
                Some(e) => e,
                None => {
                    proof {
                        assert(profile_cuts(ps_v[pi as int], start0) == Err::<Seq<TagView>, CutError>(
                            CutError::FieldMissing,
                        ));
                        lemma_profiles_cuts_err(ps_v, pi + 1, ps_v.len() as int);
                    }
                    return Err(CutError::FieldMissing);
                },
            };
            if ext2.len() < ext1.len() {
                proof {
                    assert(profile_cuts(ps_v[pi as int], start0) == Err::<Seq<TagView>, CutError>(
                        CutError::ExtremityMismatch,
                    ));
                    lemma_profiles_cuts_err(ps_v, pi + 1, ps_v.len() as int);
                }
                return Err(CutError::ExtremityMismatch);
            }
            let ghost start = cut_tags@.len() as int;
            let ghost pc = profile_cuts(ps_v[pi as int], start)->Ok_0;
            let m = ext1.len();
            let mut ci: usize = 0;
            proof {
                assert(profiles_cuts(ps_v, pi + 1) == Ok::<Seq<TagView>, CutError>(
                    tags_view(cut_tags@) + pc,
                ));
                assert((tags_view(cut_tags@) + pc).len() < 0x8000_0000);
                assert(tags_view(cut_tags@) + pc.take(0) =~= tags_view(cut_tags@));
            }
            let ghost acc0 = tags_view(cut_tags@);
            while ci < m
                invariant
                    0 <= ci <= m,
                    m == ext1@.len(),
                    ext2@.len() >= m,
                    acc0.len() + m < 0x8000_0000,
                    start == acc0.len(),
                    cut_tags@.len() == acc0.len() + ci,
                    0 <= pi < ps_v.len(),
                    pc == profile_cuts(ps_v[pi as int], start)->Ok_0,
                    profile_cuts(ps_v[pi as int], start) is Ok,
                    pc.len() == m,
                    ps_v[pi as int].length == Some(len_bits),
                    ps_v[pi as int].ext1 == Some(ext1@),
                    ps_v[pi as int].ext2 == Some(ext2@),
                    tags_view(cut_tags@) == acc0 + pc.take(ci as int),
                    tags_wf(tags_view(cut_tags@)),
                    forall|j: int, q: int|
                        0 <= j < cut_tags@.len() && 0 <= q < tags_view(cut_tags@)[j].attrs.len()
                            ==> (#[trigger] tags_view(cut_tags@)[j].attrs[q].0) != ("CCount")@,
                decreases m - ci,
            {
                let no = (cut_tags.len() + 1) as i32;
                let t = Self::build_api_cut(len_bits, &ext1[ci], &ext2[ci], no);
                let ghost old_cuts = tags_view(cut_tags@);
                cut_tags.push(t);
                proof {
                    lemma_api_cut_keys();
                    assert(pc[ci as int] == api_cut_tag(
                        len_bits,
                        ext1@[ci as int],
                        ext2@[ci as int],
                        (start + ci + 1) as i32,
                    ));
                    assert(tags_view(cut_tags@) =~= old_cuts.push(cut_tags@.last()@));
                    assert(pc.take(ci + 1) =~= pc.take(ci as int).push(pc[ci as int]));
                    assert(tags_view(cut_tags@) =~= acc0 + pc.take(ci + 1));
                }
                ci += 1;
            }
            proof {
                assert(pc.take(m as int) =~= pc);
                assert(tags_view(cut_tags@) =~= acc0 + pc);
            }
            pi += 1;
        }
        proof {
            assert(profiles_cuts(ps_v, ps_v.len() as int) == Ok::<Seq<TagView>, CutError>(
                tags_view(cut_tags@),
            ));
        }
        self.append_with_ccount(&cut_tags);
        Ok(())
    }
}

/// Why macro mapping gave up.
#[derive(Clone, Copy, Debug, PartialEq, Eq, Structural)]
pub enum MacroError {
    /// The structure views field is null.
    StructureViewsMissing,
    /// A variable key names parameter number zero, for which the
    /// attribute `Var{number - 1}` is undefined.
    BadVariable,
    /// No operation anywhere carries a variable parameter.
    NoVariables,
}

/// What `str::parse::<u16>` yields on `s`: the unsigned literal's value
/// when it is one and fits 16 bits.
pub open spec fn u16_of_text(s: Seq<char>) -> Option<u16> {
    if s.len() > 0 && s[0] != '-' {
        match crate::text::int_literal_val(s) {
            Option::Some(v) => if 0 <= v <= 0xFFFF {
                Option::Some(v as u16)
            } else {
                Option::None
            },
            Option::None => Option::None,
        }
    } else {
        Option::None
    }
}

/// The job-variable attribute name for parameter number `n`: `Var` and
/// the decimal digits of `n - 1`.
pub open spec fn var_name(n: u16) -> Seq<char> {
    ("Var")@ + crate::text::dec_digits(n - 1)
}

/// Whether a parameter key names a job variable: it opens with `v` and
/// the rest reads as a 16-bit number.
pub open spec fn is_var_key(k: Seq<char>) -> bool {
    k.len() > 0 && k[0] == 'v' && u16_of_text(k.skip(1)) is Some
}

/// One operation's parameters folded into the document, in order: each
/// variable key `v<n>` with `n` from one sets `Var{n-1}` on the `JOB`
/// record to its text's coercion; every other key — a non-variable key
/// included — contributes nothing and never stops the fold. A variable
/// key with `n` zero stops the fold as failed: `Var{n-1}` is undefined
/// there, a case the format leaves open. Yields the document, whether
/// some variable key was seen, and whether the fold failed.
pub open spec fn apply_params(
    tags: Seq<TagView>,
    params: Seq<(Seq<char>, Seq<char>)>,
) -> (Seq<TagView>, bool, bool)
    decreases params.len(),
{
    if params.len() == 0 {
        (tags, false, false)
    } else {
        let k = params[0].0;
        let val = params[0].1;
        if is_var_key(k) {
            let n = u16_of_text(k.skip(1))->0;
            if n >= 1 {
                let t2 = set_attr_spec(
                    tags,
                    ("JOB")@,
                    var_name(n),
                    crate::elumatec::variant::coerce_spec(val),
                );
                let r = apply_params(t2, params.drop_first());
                (r.0, true, r.2)
            } else {
                (tags, true, true)
            }
        } else {
            apply_params(tags, params.drop_first())
        }
    }
}

/// The first `k` operations scanned in order; the first one that
/// carries a variable parameter ends the scan.
pub open spec fn scan_ops(
    tags: Seq<TagView>,
    ops: Seq<data::ApiOperationView>,
    k: int,
) -> (Seq<TagView>, bool, bool)
    decreases k,
{
    if k <= 0 {
        (tags, false, false)
    } else {
        let prev = scan_ops(tags, ops, k - 1);
        if prev.1 || prev.2 {
            prev
        } else {
            match ops[k - 1].params {
                Option::Some(ps) => apply_params(prev.0, ps),
                Option::None => prev,
            }
        }
    }
}

/// The first `k` machining blocks scanned in order.
pub open spec fn scan_machinings(
    tags: Seq<TagView>,
    ms: Seq<data::ApiMachiningView>,
    k: int,
) -> (Seq<TagView>, bool, bool)
    decreases k,
{
    if k <= 0 {
        (tags, false, false)
    } else {
        let prev = scan_machinings(tags, ms, k - 1);
        if prev.1 || prev.2 {
            prev
        } else {
            match ms[k - 1].operations {
                Option::Some(ops) => scan_ops(prev.0, ops, ops.len() as int),
                Option::None => prev,
            }
        }
    }
}

/// The first `k` profiles scanned in order; a profile without element
/// or machinings is passed over.
pub open spec fn scan_profiles(
    tags: Seq<TagView>,
    ps: Seq<data::ApiProfileView>,
    k: int,
) -> (Seq<TagView>, bool, bool)
    decreases k,
{
    if k <= 0 {
        (tags, false, false)
    } else {
        let prev = scan_profiles(tags, ps, k - 1);
        if prev.1 || prev.2 {
            prev
        } else {
            match ps[k - 1].element {
                Option::Some(el) => match el.machinings {
                    Option::Some(ms) => scan_machinings(prev.0, ms, ms.len() as int),
                    Option::None => prev,
                },
                Option::None => prev,
            }
        }
    }
}

/// The first `k` structure views scanned in order; a view without
/// profiles is passed over.
pub open spec fn scan_views(
    tags: Seq<TagView>,
    vs: Seq<data::ApiStructureViewView>,
    k: int,
) -> (Seq<TagView>, bool, bool)
    decreases k,
{
    if k <= 0 {
        (tags, false, false)
    } else {
        let prev = scan_views(tags, vs, k - 1);
        if prev.1 || prev.2 {
            prev
        } else {
            match vs[k - 1].profiles {
                Option::Some(ps) => scan_profiles(prev.0, ps, ps.len() as int),
                Option::None => prev,
            }
        }
    }
}

/// A scan that has ended keeps its outcome however much more is
/// scanned.
proof fn lemma_scan_views_done(
    tags: Seq<TagView>,
    vs: Seq<data::ApiStructureViewView>,
    k: int,
    n: int,
)
    requires
        0 <= k <= n,
        scan_views(tags, vs, k).1 || scan_views(tags, vs, k).2,
    ensures
        scan_views(tags, vs, n) == scan_views(tags, vs, k),
    decreases n - k,
{
    if k < n {
        lemma_scan_views_done(tags, vs, k + 1, n);
    }
}

proof fn lemma_scan_profiles_done(
    tags: Seq<TagView>,
    ps: Seq<data::ApiProfileView>,
    k: int,
    n: int,
)
    requires
        0 <= k <= n,
        scan_profiles(tags, ps, k).1 || scan_profiles(tags, ps, k).2,
    ensures
        scan_profiles(tags, ps, n) == scan_profiles(tags, ps, k),
    decreases n - k,
{
    if k < n {
        lemma_scan_profiles_done(tags, ps, k + 1, n);
    }
}

proof fn lemma_scan_machinings_done(
    tags: Seq<TagView>,
    ms: Seq<data::ApiMachiningView>,
    k: int,
    n: int,
)
    requires
        0 <= k <= n,
        scan_machinings(tags, ms, k).1 || scan_machinings(tags, ms, k).2,
    ensures
        scan_machinings(tags, ms, n) == scan_machinings(tags, ms, k),
    decreases n - k,
{
    if k < n {
        lemma_scan_machinings_done(tags, ms, k + 1, n);
    }
}

/// The first-match law of macro mapping: once one of the first `k`
/// operations has supplied a variable parameter (or failed on a zero
/// one), scanning on to any later operation changes nothing — later
/// operations are not processed, whatever parameters they carry.
pub proof fn lemma_scan_ops_done(
    tags: Seq<TagView>,
    ops: Seq<data::ApiOperationView>,
    k: int,
    n: int,
)
    requires
        0 <= k <= n,
        scan_ops(tags, ops, k).1 || scan_ops(tags, ops, k).2,
    ensures
        scan_ops(tags, ops, n) == scan_ops(tags, ops, k),
    decreases n - k,
{
    if k < n {
        lemma_scan_ops_done(tags, ops, k + 1, n);
    }
}

impl ElumatecExporter {
    /// What `str::parse::<u16>` yields on the characters of `v`.
    fn parse_u16_chars(v: &Vec<char>) -> (r: Option<u16>)
        ensures
            r == u16_of_text(v@),
    {
        let n = v.len();
        if n == 0 {
            return None;
        }
        let first = v[0];
        if first == '-' {
            return None;
        }
        proof {
            if v@[0] == '+' {
                if v@.skip(1).len() > 0 && crate::text::all_digits(v@.skip(1)) {
                    crate::text::lemma_digits_val_nonneg(v@.skip(1));
                }
            } else {
                if crate::text::all_digits(v@) {
                    crate::text::lemma_digits_val_nonneg(v@);
                }
            }
        }
        let i = match crate::text::parse_i32(v) {
            Some(x) => x,
            None => {
                return None;
            },
        };
        if i >= 0 && i <= 0xFFFF {
            Some(i as u16)
        } else {
            None
        }
    }

    /// Fold one operation's parameters into the document; yields
    /// whether some `v` key was seen and whether the fold failed.
    fn apply_op_params(&mut self, params: &Vec<(String, String)>) -> (r: (bool, bool))
        requires
            old(self).wf(),
        ensures
            final(self).wf(),
            ({
                let s = apply_params(
                    old(self)@,
                    params@.map_values(|p: (String, String)| (p.0@, p.1@)),
                );
                &&& final(self)@ == s.0
                &&& r.0 == s.1
                &&& r.1 == s.2
            }),
    {
        let ghost pv = params@.map_values(|p: (String, String)| (p.0@, p.1@));
        let n = params.len();
        let mut i: usize = 0;
        let mut var_set = false;
        proof {
            assert(pv.skip(0) =~= pv);
        }
        while i < n
            invariant
                0 <= i <= n,
                n == params@.len(),
                pv == params@.map_values(|p: (String, String)| (p.0@, p.1@)),
                self.wf(),
                ({
                    let whole = apply_params(old(self)@, pv);
                    let rest = apply_params(self@, pv.skip(i as int));
                    &&& whole.0 == rest.0
                    &&& whole.1 == (var_set || rest.1)
                    &&& whole.2 == rest.2
                }),
            decreases n - i,
        {
            proof {
                assert(pv[i as int] == (params@[i as int].0@, params@[i as int].1@));
                assert(pv.skip(i as int)[0] == pv[i as int]);
                assert(pv.skip(i as int).drop_first() =~= pv.skip(i + 1));
            }
            let key_chars = str_chars(params[i].0.as_str());
            if key_chars.len() > 0 && key_chars[0] == 'v' {
                let rest = copy_range(&key_chars, 1, key_chars.len());
                proof {
                    assert(rest@ =~= key_chars@.skip(1));
                }
                match Self::parse_u16_chars(&rest) {
                    Some(n16) => {
                        if n16 >= 1 {
                            let mut name: Vec<char> = Vec::new();
                            name.push('V');
                            name.push('a');
                            name.push('r');
                            crate::text::push_dec((n16 - 1) as u64, &mut name);
                            proof {
                                reveal_strlit("Var");
                                assert(name@ =~= var_name(n16));
                            }
                            let name_s = chars_string(&name);
                            let value = Variant::from(params[i].1.as_str());
                            self.set_attribute("JOB", name_s.as_str(), value);
                            var_set = true;
                        } else {
                            return (true, true);
                        }
                    },
                    None => {
                        // not a variable key: passed over
                        proof {
                            assert(!is_var_key(pv[i as int].0));
                        }
                    },
                }
            }
            i += 1;
        }
        proof {
            assert(pv.skip(n as int) =~= Seq::<(Seq<char>, Seq<char>)>::empty());
        }
        (var_set, false)
    }

    /// Scan one operation list; the first operation carrying a
    /// variable parameter ends the scan.
    fn scan_ops_exec(&mut self, ops: &Vec<data::ApiOperation>) -> (r: (bool, bool))
        requires
            old(self).wf(),
        ensures
            final(self).wf(),
            ({
                let s = scan_ops(
                    old(self)@,
                    ops@.map_values(|o: data::ApiOperation| o@),
                    ops@.len() as int,
                );
                &&& final(self)@ == s.0
                &&& r.0 == s.1
                &&& r.1 == s.2
            }),
    {
        let ghost ov = ops@.map_values(|o: data::ApiOperation| o@);
        let n = ops.len();
        let mut i: usize = 0;
        while i < n
            invariant
                0 <= i <= n,
                n == ops@.len(),
                ov == ops@.map_values(|o: data::ApiOperation| o@),
                self.wf(),
                scan_ops(old(self)@, ov, i as int) == (self@, false, false),
            decreases n - i,
        {
            proof {
                assert(ov[i as int] == ops@[i as int]@);
            }
            match &ops[i].params {
                Some(ps) => {
                    let (var_set, failed) = self.apply_op_params(ps);
                    if var_set || failed {
                        proof {
                            lemma_scan_ops_done(old(self)@, ov, i + 1, n as int);
                        }
                        return (var_set, failed);
                    }
                },
                None => {},
            }
            i += 1;
        }
        (false, false)
    }

    /// Scan one machining list.
    fn scan_machinings_exec(&mut self, ms: &Vec<data::ApiMachining>) -> (r: (bool, bool))
        requires
            old(self).wf(),
        ensures
            final(self).wf(),
            ({
                let s = scan_machinings(
                    old(self)@,
                    ms@.map_values(|m: data::ApiMachining| m@),
                    ms@.len() as int,
                );
                &&& final(self)@ == s.0
                &&& r.0 == s.1
                &&& r.1 == s.2
            }),
    {
        let ghost mv = ms@.map_values(|m: data::ApiMachining| m@);
        let n = ms.len();
        let mut i: usize = 0;
        while i < n
            invariant
                0 <= i <= n,
                n == ms@.len(),
                mv == ms@.map_values(|m: data::ApiMachining| m@),
                self.wf(),
                scan_machinings(old(self)@, mv, i as int) == (self@, false, false),
            decreases n - i,
        {
            proof {
                assert(mv[i as int] == ms@[i as int]@);
            }
            match &ms[i].operations {
                Some(ops) => {
                    let (var_set, failed) = self.scan_ops_exec(ops);
                    if var_set || failed {
                        proof {
                            lemma_scan_machinings_done(old(self)@, mv, i + 1, n as int);
                        }
                        return (var_set, failed);
                    }
                },
                None => {},
            }
            i += 1;
        }
        (false, false)
    }

    /// Scan one profile list.
    fn scan_profiles_exec(&mut self, ps: &Vec<data::ApiProfile>) -> (r: (bool, bool))
        requires
            old(self).wf(),
        ensures
            final(self).wf(),
            ({
                let s = scan_profiles(
                    old(self)@,
                    ps@.map_values(|p: data::ApiProfile| p@),
                    ps@.len() as int,
                );
                &&& final(self)@ == s.0
                &&& r.0 == s.1
                &&& r.1 == s.2
            }),
    {
        let ghost pv = ps@.map_values(|p: data::ApiProfile| p@);
        let n = ps.len();
        let mut i: usize = 0;
        while i < n
            invariant
                0 <= i <= n,
                n == ps@.len(),
                pv == ps@.map_values(|p: data::ApiProfile| p@),
                self.wf(),
                scan_profiles(old(self)@, pv, i as int) == (self@, false, false),
            decreases n - i,
        {
            proof {
                assert(pv[i as int] == ps@[i as int]@);
            }
            match &ps[i].element {
                Some(el) => {
                    match &el.machinings {
                        Some(ms) => {
                            let (var_set, failed) = self.scan_machinings_exec(ms);
                            if var_set || failed {
                                proof {
                                    lemma_scan_profiles_done(old(self)@, pv, i + 1, n as int);
                                }
                                return (var_set, failed);
                            }
                        },
                        None => {},
                    }
                },
                None => {},
            }
            i += 1;
        }
        (false, false)
    }

    /// Macro mapping: scan structure views, profiles, machinings and
    /// operations in order; the first operation that carries a variable
    /// parameter — a key `v<n>` whose tail reads as a 16-bit number —
    /// maps every such parameter into the `JOB` record and ends the
    /// scan. Keys that are no variable, a `v` without a numeric tail
    /// included, are passed over. Fails when the structure views are
    /// null, when a variable key names parameter number zero (the
    /// attribute `Var{n-1}` is undefined there, a case the format
    /// leaves open), or when no operation carries a variable parameter.
    pub fn update_macros(&mut self, data: &data::ProjectData) -> (r: Result<(), MacroError>)
        requires
            old(self).wf(),
        ensures
            final(self).wf(),
            match data@.structure_views {
                Option::None => r == Err::<(), MacroError>(MacroError::StructureViewsMissing)
                    && final(self)@ == old(self)@,
                Option::Some(vs) => ({
                    let s = scan_views(old(self)@, vs, vs.len() as int);
                    &&& final(self)@ == s.0
                    &&& r == if s.2 {
                        Err::<(), MacroError>(MacroError::BadVariable)
                    } else if !s.1 {
                        Err::<(), MacroError>(MacroError::NoVariables)
                    } else {
                        Ok::<(), MacroError>(())
                    }
                }),
            },
    {
        let views = match &data.structure_views {
            Some(v) => v,
            None => {
                return Err(MacroError::StructureViewsMissing);
            },
        };
        let ghost vv = data@.structure_views->0;
        let n = views.len();
        let mut i: usize = 0;
        while i < n
            invariant
                0 <= i <= n,
                n == views@.len(),
                vv == views@.map_values(|v: data::ApiStructureView| v@),
                data@.structure_views == Option::Some(vv),
                vv.len() == n,
                self.wf(),
                scan_views(old(self)@, vv, i as int) == (self@, false, false),
            decreases n - i,
        {
            proof {
                assert(vv[i as int] == views@[i as int]@);
            }
            match &views[i].profiles {
                Some(ps) => {
                    let (var_set, failed) = self.scan_profiles_exec(ps);
                    if failed {
                        proof {
                            lemma_scan_views_done(old(self)@, vv, i + 1, n as int);
                        }
                        return Err(MacroError::BadVariable);
                    }
                    if var_set {
                        proof {
                            lemma_scan_views_done(old(self)@, vv, i + 1, n as int);
                        }
                        return Ok(());
                    }
                },
                None => {},
            }
            i += 1;
        }
        Err(MacroError::NoVariables)
    }
}

/// The `CNo` of one API cut record reads back as its number.
proof fn lemma_api_cut_cno(len_bits: u32, c1: data::ApiCut, c2: data::ApiCut, no: i32)
    ensures
        crate::elumatec::tag::lookup(api_cut_attrs(len_bits, c1, c2, no), ("CNo")@)
            == Option::Some(VariantView::Int(no)),
{
    reveal_strlit("CLength");
    reveal_strlit("CNo");
    let attrs = api_cut_attrs(len_bits, c1, c2, no);
    let d = attrs.drop_first();
    assert(attrs[0].0 != ("CNo")@) by {
        assert(("CLength")@.len() == 7);
        assert(("CNo")@.len() == 3);
    }
    assert(d[0].0 == ("CNo")@);
    assert(crate::elumatec::tag::key_index(d, ("CNo")@) == 0);
    assert(crate::elumatec::tag::key_index(attrs, ("CNo")@) == 1);
    assert(attrs[1] == d[0]);
}

/// A key already present keeps its place and value when a pair is
/// appended.
proof fn lemma_lookup_push(
    attrs: Seq<(Seq<char>, VariantView)>,
    key: Seq<char>,
    x: (Seq<char>, VariantView),
)
    requires
        crate::elumatec::tag::key_index(attrs, key) >= 0,
    ensures
        crate::elumatec::tag::key_index(attrs.push(x), key) == crate::elumatec::tag::key_index(
            attrs,
            key,
        ),
        crate::elumatec::tag::lookup(attrs.push(x), key) == crate::elumatec::tag::lookup(
            attrs,
            key,
        ),
    decreases attrs.len(),
{
    let ki = crate::elumatec::tag::key_index(attrs, key);
    crate::elumatec::tag::lemma_key_index(attrs, key);
    if attrs.len() == 0 {
    } else if attrs[0].0 == key {
        assert(attrs.push(x)[0] == attrs[0]);
    } else {
        assert(attrs.push(x)[0] == attrs[0]);
        assert(attrs.push(x).drop_first() =~= attrs.drop_first().push(x));
        lemma_lookup_push(attrs.drop_first(), key, x);
        assert(attrs.push(x)[ki] == attrs[ki]);
    }
}

proof fn lemma_profiles_cuts_cno(ps: Seq<data::ApiProfileView>, j: int, k: int)
    requires
        0 <= j <= ps.len(),
        profiles_cuts(ps, j) is Ok,
        0 <= k < profiles_cuts(ps, j)->Ok_0.len(),
    ensures
        crate::elumatec::tag::lookup(profiles_cuts(ps, j)->Ok_0[k].attrs, ("CNo")@)
            == Option::Some(VariantView::Int((k + 1) as i32)),
    decreases j,
{
    let acc = profiles_cuts(ps, j - 1)->Ok_0;
    if j <= 0 {
    } else {
        let c = profile_cuts(ps[j - 1], acc.len() as int)->Ok_0;
        if k < acc.len() {
            lemma_profiles_cuts_cno(ps, j - 1, k);
            assert((acc + c)[k] == acc[k]);
        } else {
            let i = k - acc.len();
            assert((acc + c)[k] == c[i]);
            let p = ps[j - 1];
            assert(c[i] == api_cut_tag(p.length->0, p.ext1->0[i], p.ext2->0[i], (acc.len() + i
                + 1) as i32));
            lemma_api_cut_cno(p.length->0, p.ext1->0[i], p.ext2->0[i], (acc.len() + i + 1) as i32);
        }
    }
}

/// The cumulative numbering law of cut mapping: in the document the
/// cut list yields — `CCount` included — the cut record standing `k`-th
/// overall carries `CNo` `k + 1`. Numbering runs across profiles, not
/// within each.
pub proof fn lemma_cut_numbering_cumulative(d: data::ProjectDataView, k: int)
    requires
        api_cuts_spec(d) is Ok,
        0 <= k < api_cuts_spec(d)->Ok_0.len(),
    ensures
        ({
            let cuts = api_cuts_spec(d)->Ok_0;
            crate::elumatec::tag::lookup(
                with_ccount(cuts, cuts.len() as i32)[k].attrs,
                ("CNo")@,
            ) == Option::Some(VariantView::Int((k + 1) as i32))
        }),
{
    let cuts = api_cuts_spec(d)->Ok_0;
    let ps = d.structure_views->0[0].profiles->0;
    lemma_profiles_cuts_cno(ps, ps.len() as int, k);
    assert(with_ccount(cuts, cuts.len() as i32)[k].attrs == cuts[k].attrs.push(
        (("CCount")@, VariantView::Int(cuts.len() as i32)),
    ));
    crate::elumatec::tag::lemma_key_index(cuts[k].attrs, ("CNo")@);
    lemma_lookup_push(
        cuts[k].attrs,
        ("CNo")@,
        (("CCount")@, VariantView::Int(cuts.len() as i32)),
    );
}

/// What macro mapping yields: the document it leaves and its error, if
/// any.
pub open spec fn macros_result(tags0: Seq<TagView>, d: data::ProjectDataView) -> (
    Seq<TagView>,
    Option<MacroError>,
) {
    match d.structure_views {
        Option::None => (tags0, Option::Some(MacroError::StructureViewsMissing)),
        Option::Some(vs) => {
            let s = scan_views(tags0, vs, vs.len() as int);
            (
                s.0,
                if s.2 {
                    Option::Some(MacroError::BadVariable)
                } else if !s.1 {
                    Option::Some(MacroError::NoVariables)
                } else {
                    Option::None
                },
            )
        },
    }
}

/// What cut mapping yields: the document it leaves and its error, if
/// any.
pub open spec fn cuts_result(tags0: Seq<TagView>, d: data::ProjectDataView) -> (
    Seq<TagView>,
    Option<CutError>,
) {
    match api_cuts_spec(d) {
        Ok(c) => (tags0 + with_ccount(c, c.len() as i32), Option::None),
        Err(e) => (tags0, Option::Some(e)),
    }
}

/// What building from fetched project data yields: macro mapping, then
/// cut mapping, each best-effort — a failure of one does not stop the
/// other.
pub open spec fn api_doc(tags0: Seq<TagView>, d: data::ProjectDataView) -> (
    Seq<TagView>,
    Option<MacroError>,
    Option<CutError>,
) {
    let m = macros_result(tags0, d);
    let c = cuts_result(m.0, d);
    (c.0, m.1, c.1)
}

impl ElumatecExporter {
    /// A copy equal to this document.
    pub fn duplicate(&self) -> (r: ElumatecExporter)
        ensures
            r@ == self@,
    {
        let n = self.tags.len();
        let mut tags: Vec<Tag> = Vec::new();
        while tags.len() < n
            invariant
                tags@.len() <= n,
                n == self.tags@.len(),
                tags_view(tags@) == tags_view(self.tags@).take(tags@.len() as int),
            decreases n - tags.len(),
        {
            let i = tags.len();
            let t = self.tags[i].duplicate();
            tags.push(t);
            proof {
                assert(tags_view(tags@) =~= tags_view(self.tags@).take(i + 1));
            }
        }
        let r = ElumatecExporter { tags };
        proof {
            assert(tags_view(self.tags@).take(n as int) =~= tags_view(self.tags@));
        }
        r
    }

    /// Build from fetched project data: macro mapping, then cut
    /// mapping, each best-effort; the errors of the two are handed back
    /// for the caller to report.
    pub fn update_from_api(&mut self, data: &data::ProjectData) -> (r: (
        Option<MacroError>,
        Option<CutError>,
    ))
        requires
            old(self).wf(),
            api_cuts_bounded(data@),
        ensures
            final(self).wf(),
            ({
                let d = api_doc(old(self)@, data@);
                &&& final(self)@ == d.0
                &&& r.0 == d.1
                &&& r.1 == d.2
            }),
    {
        let macro_err = match self.update_macros(data) {
            Ok(_) => None,
            Err(e) => Some(e),
        };
        let cuts_err = match self.update_cuts(data) {
            Ok(_) => None,
            Err(e) => Some(e),
        };
        (macro_err, cuts_err)
    }
}

/// The view of an optionally open record.
pub open spec fn opt_tag_view(cur: Option<Tag>) -> Option<TagView> {
    match cur {
        Some(t) => Some(t@),
        None => None,
    }
}

/// Once a prefix of the lines fails, the whole run fails the same way.
proof fn lemma_run_lines_err(lines: Seq<Seq<char>>, k: int, n: int)
    requires
        0 < k <= n,
        run_lines(lines, k) is Err,
    ensures
        run_lines(lines, n) == run_lines(lines, k),
    decreases n - k,
{
    if k < n {
        lemma_run_lines_err(lines, k + 1, n);
    }
}

} // verus!
