//! Section splitter: partitions a file's lines into an ordered list of
//! (header, body) sections.
//!
//! A recognized header line closes the open section and opens a new one;
//! every other line joins the open section's body; lines before the first
//! header belong to no section and are dropped.  Splitting is total: it
//! never fails, whatever the content.

use vstd::prelude::*;
use crate::codec::is_header;
use crate::codec::is_header_line;

verus! {

/// The mathematical shape of a section: its header line and its body lines.
pub type SectionModel = (Seq<char>, Seq<Seq<char>>);

/// One parsed section: a header line and the body lines that follow it, in
/// order, up to the next header line.
#[derive(Clone, Debug)]
pub struct Section {
    pub header: String,
    pub body: Vec<String>,
}

impl View for Section {
    type V = SectionModel;

    open spec fn view(&self) -> SectionModel {
        (self.header@, self.body.deep_view())
    }
}

impl DeepView for Section {
    type V = SectionModel;

    open spec fn deep_view(&self) -> SectionModel {
        self.view()
    }
}

impl Section {
    /// An exact copy, with a contract (the derived clone says nothing).
    pub fn duplicate(&self) -> (r: Section)
        ensures
            r@ == self@,
    {
        let mut body: Vec<String> = Vec::new();
        assert(body.deep_view() =~~= self.body.deep_view().subrange(0, 0));
        let mut i: usize = 0;
        while i < self.body.len()
            invariant
                0 <= i <= self.body.len(),
                body.deep_view() == self.body.deep_view().subrange(0, i as int),
            decreases self.body.len() - i,
        {
            let ghost prev: Seq<Seq<char>> = body.deep_view();
            body.push(self.body[i].clone());
            proof {
                assert(body.deep_view() =~~= prev.push(self.body.deep_view()[i as int]));
                assert(body.deep_view() =~~= self.body.deep_view().subrange(0, i + 1));
            }
            i += 1;
        }
        assert(body.deep_view() =~~= self.body.deep_view());
        Section { header: self.header.clone(), body }
    }
}

/// The lines a section stands for: its header followed by its body.
pub open spec fn sec_lines(sec: SectionModel) -> Seq<Seq<char>> {
    seq![sec.0] + sec.1
}

/// The lines that a list of sections serializes to, in order.
pub open spec fn flatten_sections(ss: Seq<SectionModel>) -> Seq<Seq<char>>
    decreases ss.len(),
{
    if ss.len() == 0 {
        Seq::empty()
    } else {
        sec_lines(ss[0]) + flatten_sections(ss.drop_first())
    }
}

pub open spec fn opt_section(cur: Option<SectionModel>) -> Seq<SectionModel> {
    match cur {
        Some(c) => seq![c],
        None => Seq::empty(),
    }
}

/// The splitter's fold, resumed at line `i` with sections `done` already
/// closed and `cur` the open accumulator, if any.
pub open spec fn split_cont(
    lines: Seq<Seq<char>>,
    i: int,
    done: Seq<SectionModel>,
    cur: Option<SectionModel>,
) -> Seq<SectionModel>
    decreases lines.len() - i when 0 <= i
{
    if i >= lines.len() {
        done + opt_section(cur)
    } else if is_header(lines[i]) {
        split_cont(lines, i + 1, done + opt_section(cur), Some((lines[i], Seq::empty())))
    } else {
        match cur {
            Some(c) => split_cont(lines, i + 1, done, Some((c.0, c.1.push(lines[i])))),
            None => split_cont(lines, i + 1, done, None),
        }
    }
}

/// The sections of a line sequence.
pub open spec fn split_spec(lines: Seq<Seq<char>>) -> Seq<SectionModel> {
    split_cont(lines, 0, Seq::empty(), None)
}

/// Splits a file's lines into sections, in source order.
pub fn split_sections(lines: &Vec<String>) -> (r: Vec<Section>)
    ensures
        r.deep_view() == split_spec(lines.deep_view()),
{
    let ghost ldv: Seq<Seq<char>> = lines.deep_view();
    let mut sections: Vec<Section> = Vec::new();
    let mut has_cur: bool = false;
    let mut cur_header: String = String::new();
    let mut cur_body: Vec<String> = Vec::new();
    assert(sections.deep_view() =~~= Seq::<SectionModel>::empty());
    let mut i: usize = 0;
    while i < lines.len()
        invariant
            0 <= i <= lines.len(),
            ldv == lines.deep_view(),
            ldv.len() == lines.len(),
            split_spec(ldv) == split_cont(
                ldv,
                i as int,
                sections.deep_view(),
                if has_cur {
                    Some((cur_header@, cur_body.deep_view()))
                } else {
                    None
                },
            ),
        decreases lines.len() - i,
    {
        let ghost done_prev: Seq<SectionModel> = sections.deep_view();
        let ghost cur_prev: Option<SectionModel> = if has_cur {
            Some((cur_header@, cur_body.deep_view()))
        } else {
            None
        };
        if is_header_line(lines[i].as_str()) {
            if has_cur {
                sections.push(Section { header: cur_header, body: cur_body });
            }
            proof {
                assert(sections.deep_view() =~~= done_prev + opt_section(cur_prev));
            }
            cur_header = lines[i].clone();
            cur_body = Vec::new();
            has_cur = true;
            proof {
                assert(cur_body.deep_view() =~~= Seq::<Seq<char>>::empty());
            }
        } else {
            if has_cur {
                cur_body.push(lines[i].clone());
                proof {
                    assert(cur_prev is Some);
                    assert(cur_body.deep_view() =~~= (cur_prev->0).1.push(ldv[i as int]));
                }
            }
        }
        i += 1;
    }
    let ghost done_end: Seq<SectionModel> = sections.deep_view();
    let ghost cur_end: Option<SectionModel> = if has_cur {
        Some((cur_header@, cur_body.deep_view()))
    } else {
        None
    };
    if has_cur {
        sections.push(Section { header: cur_header, body: cur_body });
    }
    proof {
        assert(sections.deep_view() =~~= done_end + opt_section(cur_end));
    }
    sections
}

// ---------------------------------------------------------------------------
// Laws of splitting and reassembling.
// ---------------------------------------------------------------------------

/// Index of the first header line at or after `i` (`lines.len()` if none).
pub open spec fn first_header_from(lines: Seq<Seq<char>>, i: int) -> int
    decreases lines.len() - i when 0 <= i
{
    if i >= lines.len() {
        lines.len() as int
    } else if is_header(lines[i]) {
        i
    } else {
        first_header_from(lines, i + 1)
    }
}

pub proof fn lemma_flatten_snoc(ss: Seq<SectionModel>, c: SectionModel)
    ensures
        flatten_sections(ss.push(c)) == flatten_sections(ss) + sec_lines(c),
    decreases ss.len(),
{
    if ss.len() == 0 {
        assert(ss.push(c)[0] == c);
        assert(ss.push(c).drop_first() =~~= Seq::<SectionModel>::empty());
        assert(flatten_sections(ss.push(c)) == sec_lines(c) + flatten_sections(
            Seq::<SectionModel>::empty(),
        ));
        assert(sec_lines(c) + Seq::<Seq<char>>::empty() =~~= Seq::<Seq<char>>::empty() + sec_lines(
            c,
        ));
        assert(flatten_sections(ss) == Seq::<Seq<char>>::empty());
    } else {
        assert(ss.push(c).drop_first() =~~= ss.drop_first().push(c));
        lemma_flatten_snoc(ss.drop_first(), c);
        assert(ss.push(c)[0] == ss[0]);
        assert(flatten_sections(ss.push(c)) == sec_lines(ss[0]) + (flatten_sections(
            ss.drop_first(),
        ) + sec_lines(c)));
        assert(flatten_sections(ss) == sec_lines(ss[0]) + flatten_sections(ss.drop_first()));
        assert(sec_lines(ss[0]) + (flatten_sections(ss.drop_first()) + sec_lines(c)) =~~= (
        sec_lines(ss[0]) + flatten_sections(ss.drop_first())) + sec_lines(c));
    }
}

/// Resuming the fold with an open section accounts for every remaining line:
/// the closed sections, the open one, then the rest of the input verbatim.
pub proof fn lemma_split_cont_flatten_open(
    lines: Seq<Seq<char>>,
    i: int,
    done: Seq<SectionModel>,
    c: SectionModel,
)
    requires
        0 <= i <= lines.len(),
    ensures
        flatten_sections(split_cont(lines, i, done, Some(c))) == flatten_sections(done)
            + sec_lines(c) + lines.subrange(i, lines.len() as int),
    decreases lines.len() - i,
{
    if i >= lines.len() {
        assert(done + opt_section(Some(c)) =~~= done.push(c));
        lemma_flatten_snoc(done, c);
        assert(flatten_sections(done) + sec_lines(c) + lines.subrange(i, lines.len() as int)
            =~~= flatten_sections(done) + sec_lines(c));
    } else if is_header(lines[i]) {
        lemma_split_cont_flatten_open(lines, i + 1, done + seq![c], (lines[i], Seq::empty()));
        assert(done + opt_section(Some(c)) =~~= done.push(c));
        lemma_flatten_snoc(done, c);
        assert(flatten_sections(done.push(c)) + sec_lines((lines[i], Seq::<Seq<char>>::empty()))
            + lines.subrange(i + 1, lines.len() as int) =~~= flatten_sections(done) + sec_lines(c)
            + lines.subrange(i, lines.len() as int));
    } else {
        lemma_split_cont_flatten_open(lines, i + 1, done, (c.0, c.1.push(lines[i])));
        assert(flatten_sections(done) + sec_lines((c.0, c.1.push(lines[i]))) + lines.subrange(
            i + 1,
            lines.len() as int,
        ) =~~= flatten_sections(done) + sec_lines(c) + lines.subrange(i, lines.len() as int));
    }
}

/// Resuming the fold with no open section: lines up to the next header are
/// dropped, and everything from that header on is accounted for verbatim.
pub proof fn lemma_split_cont_flatten_none(lines: Seq<Seq<char>>, i: int, done: Seq<SectionModel>)
    requires
        0 <= i <= lines.len(),
    ensures
        flatten_sections(split_cont(lines, i, done, None)) == flatten_sections(done)
            + lines.subrange(first_header_from(lines, i), lines.len() as int),
    decreases lines.len() - i,
{
    if i >= lines.len() {
        assert(done + opt_section(None) =~~= done);
        assert(flatten_sections(done) + lines.subrange(first_header_from(lines, i), lines.len() as int)
            =~~= flatten_sections(done));
    } else if is_header(lines[i]) {
        lemma_split_cont_flatten_open(lines, i + 1, done + opt_section(None), (lines[i], Seq::empty()));
        assert(done + opt_section(None) =~~= done);
        assert(flatten_sections(done) + sec_lines((lines[i], Seq::<Seq<char>>::empty()))
            + lines.subrange(i + 1, lines.len() as int) =~~= flatten_sections(done)
            + lines.subrange(i, lines.len() as int));
    } else {
        lemma_split_cont_flatten_none(lines, i + 1, done);
    }
}

/// Reassembling the splitter's output reproduces the input exactly from its
/// first header line onward; lines before the first header (malformed or
/// stray content) are absent from every section.
pub proof fn lemma_split_flatten(lines: Seq<Seq<char>>)
    ensures
        flatten_sections(split_spec(lines)) == lines.subrange(
            first_header_from(lines, 0),
            lines.len() as int,
        ),
{
    lemma_split_cont_flatten_none(lines, 0, Seq::empty());
    assert(flatten_sections(Seq::<SectionModel>::empty()) + lines.subrange(
        first_header_from(lines, 0),
        lines.len() as int,
    ) =~~= lines.subrange(first_header_from(lines, 0), lines.len() as int));
}

/// Split/reassemble identity: when the input starts with a header line (or
/// is empty), reassembling the sections reproduces it exactly.
pub proof fn lemma_split_reassemble_identity(lines: Seq<Seq<char>>)
    requires
        lines.len() == 0 || is_header(lines[0]),
    ensures
        flatten_sections(split_spec(lines)) == lines,
{
    lemma_split_flatten(lines);
    assert(lines.subrange(first_header_from(lines, 0), lines.len() as int) =~~= lines);
}

// ---------------------------------------------------------------------------
// Splitting serialized sections gives the sections back.
// ---------------------------------------------------------------------------

/// A well-formed section: its header really is a header line, and no body
/// line would be mistaken for one.
pub open spec fn wf_section(sec: SectionModel) -> bool {
    &&& is_header(sec.0)
    &&& forall|k: int| 0 <= k < sec.1.len() ==> !is_header(#[trigger] sec.1[k])
}

pub open spec fn wf_sections(ss: Seq<SectionModel>) -> bool {
    forall|p: int| 0 <= p < ss.len() ==> wf_section(#[trigger] ss[p])
}

pub proof fn lemma_flatten_len(ss: Seq<SectionModel>)
    ensures
        flatten_sections(ss).len() >= ss.len(),
    decreases ss.len(),
{
    if ss.len() > 0 {
        lemma_flatten_len(ss.drop_first());
    }
}

pub proof fn lemma_split_cont_of_flatten(
    lines: Seq<Seq<char>>,
    i: int,
    done: Seq<SectionModel>,
    h: Seq<char>,
    b: Seq<Seq<char>>,
    body_rest: Seq<Seq<char>>,
    ss: Seq<SectionModel>,
)
    requires
        0 <= i <= lines.len(),
        lines.subrange(i, lines.len() as int) == body_rest + flatten_sections(ss),
        forall|k: int| 0 <= k < body_rest.len() ==> !is_header(#[trigger] body_rest[k]),
        wf_sections(ss),
    ensures
        split_cont(lines, i, done, Some((h, b))) == done + seq![(h, b + body_rest)] + ss,
    decreases lines.len() - i,
{
    let rem = lines.subrange(i, lines.len() as int);
    if i >= lines.len() {
        lemma_flatten_len(ss);
        assert(rem.len() == 0);
        assert(body_rest.len() == 0);
        assert(ss.len() == 0);
        assert(done + opt_section(Some((h, b))) =~~= done + seq![(h, b + body_rest)] + ss);
    } else if is_header(lines[i]) {
        assert(lines[i] == rem[0]);
        if body_rest.len() > 0 {
            assert(rem[0] == body_rest[0]);
            assert(false);
        }
        lemma_flatten_len(ss);
        assert(ss.len() > 0);
        assert(flatten_sections(ss) == sec_lines(ss[0]) + flatten_sections(ss.drop_first()));
        assert(rem[0] == ss[0].0);
        assert(lines.subrange(i + 1, lines.len() as int) =~~= rem.drop_first());
        assert(rem.drop_first() =~~= ss[0].1 + flatten_sections(ss.drop_first()));
        assert(lines.subrange(i + 1, lines.len() as int) == ss[0].1 + flatten_sections(
            ss.drop_first(),
        ));
        assert(wf_section(ss[0]));
        assert forall|p: int| 0 <= p < ss.drop_first().len() implies wf_section(
            #[trigger] ss.drop_first()[p],
        ) by {
            assert(ss.drop_first()[p] == ss[p + 1]);
        }
        lemma_split_cont_of_flatten(
            lines,
            i + 1,
            done + opt_section(Some((h, b))),
            ss[0].0,
            Seq::empty(),
            ss[0].1,
            ss.drop_first(),
        );
        assert(done + opt_section(Some((h, b))) + seq![(ss[0].0, Seq::<Seq<char>>::empty() + ss[0].1)]
            + ss.drop_first() =~~= done + seq![(h, b + body_rest)] + ss);
    } else {
        assert(lines[i] == rem[0]);
        if body_rest.len() == 0 {
            lemma_flatten_len(ss);
            if ss.len() == 0 {
                assert(rem.len() == 0);
                assert(false);
            }
            assert(flatten_sections(ss) == sec_lines(ss[0]) + flatten_sections(ss.drop_first()));
            assert(rem[0] == ss[0].0);
            assert(wf_section(ss[0]));
            assert(false);
        }
        assert(rem[0] == body_rest[0]);
        assert(lines.subrange(i + 1, lines.len() as int) =~~= rem.drop_first());
        assert(rem.drop_first() =~~= body_rest.drop_first() + flatten_sections(ss));
        assert(lines.subrange(i + 1, lines.len() as int) == body_rest.drop_first()
            + flatten_sections(ss));
        assert forall|k: int| 0 <= k < body_rest.drop_first().len() implies !is_header(
            #[trigger] body_rest.drop_first()[k],
        ) by {
            assert(body_rest.drop_first()[k] == body_rest[k + 1]);
        }
        lemma_split_cont_of_flatten(
            lines,
            i + 1,
            done,
            h,
            b.push(lines[i]),
            body_rest.drop_first(),
            ss,
        );
        assert(done + seq![(h, b.push(lines[i]) + body_rest.drop_first())] + ss =~~= done + seq![
            (h, b + body_rest),
        ] + ss);
    }
}

/// Splitting the lines that a list of well-formed sections serializes to
/// gives back exactly those sections.
pub proof fn lemma_split_of_flatten(ss: Seq<SectionModel>)
    requires
        wf_sections(ss),
    ensures
        split_spec(flatten_sections(ss)) == ss,
{
    let lines = flatten_sections(ss);
    if ss.len() == 0 {
        assert(split_spec(lines) =~~= ss);
    } else {
        assert(lines == sec_lines(ss[0]) + flatten_sections(ss.drop_first()));
        assert(wf_section(ss[0]));
        assert(lines[0] == ss[0].0);
        assert(is_header(lines[0]));
        assert(lines.subrange(1, lines.len() as int) =~~= ss[0].1 + flatten_sections(
            ss.drop_first(),
        ));
        assert forall|p: int| 0 <= p < ss.drop_first().len() implies wf_section(
            #[trigger] ss.drop_first()[p],
        ) by {
            assert(ss.drop_first()[p] == ss[p + 1]);
        }
        assert(split_spec(lines) == split_cont(
            lines,
            1,
            Seq::empty() + opt_section(None),
            Some((lines[0], Seq::empty())),
        ));
        assert(Seq::<SectionModel>::empty() + opt_section(None) =~~= Seq::<SectionModel>::empty());
        lemma_split_cont_of_flatten(
            lines,
            1,
            Seq::empty(),
            ss[0].0,
            Seq::empty(),
            ss[0].1,
            ss.drop_first(),
        );
        assert(Seq::<SectionModel>::empty() + seq![(ss[0].0, Seq::<Seq<char>>::empty() + ss[0].1)]
            + ss.drop_first() =~~= ss);
    }
}

} // verus!
