//! Capture store operations, as pure functions over file content.
//!
//! Each store operation is read-parse-mutate-write with no state between
//! calls.  The functions here are the parse/mutate steps: they take a file's
//! lines (or several files' lines) and return what must be written back.
//! The surrounding application performs the reads and writes.

use vstd::prelude::*;
use vstd::string::*;
use crate::codec::CaptureKey;
use crate::codec::decode_header;
use crate::codec::encode_header;
use crate::codec::header_text;
use crate::codec::decode_spec;
use crate::codec::KeyModel;
use crate::error::Error;
use crate::error::IoKind;
use crate::lines::lemma_lines_text_concat;
use crate::lines::lemma_lines_text_snoc;
use crate::lines::lines_text;
use crate::lines::nl;
use crate::splitter::Section;
use crate::splitter::SectionModel;
use crate::splitter::flatten_sections;
use crate::splitter::lemma_flatten_snoc;
use crate::splitter::sec_lines;
use crate::splitter::split_sections;
use crate::splitter::split_spec;

verus! {

// ---------------------------------------------------------------------------
// Serializing sections back to file text.
// ---------------------------------------------------------------------------

/// The text that a list of sections serializes to: every header and body
/// line in order, each terminated by `\n`.
pub open spec fn sections_text(ss: Seq<SectionModel>) -> Seq<char> {
    lines_text(flatten_sections(ss))
}

/// Serializing distributes over concatenation of section lists.
pub proof fn lemma_flatten_concat(a: Seq<SectionModel>, b: Seq<SectionModel>)
    ensures
        flatten_sections(a + b) == flatten_sections(a) + flatten_sections(b),
    decreases a.len(),
{
    if a.len() == 0 {
        assert(a + b =~~= b);
        assert(flatten_sections(a) + flatten_sections(b) =~~= flatten_sections(b));
    } else {
        assert((a + b)[0] == a[0]);
        assert((a + b).drop_first() =~~= a.drop_first() + b);
        lemma_flatten_concat(a.drop_first(), b);
        assert(flatten_sections(a + b) == sec_lines(a[0]) + (flatten_sections(a.drop_first())
            + flatten_sections(b)));
        assert(flatten_sections(a) == sec_lines(a[0]) + flatten_sections(a.drop_first()));
        assert(sec_lines(a[0]) + (flatten_sections(a.drop_first()) + flatten_sections(b)) =~~= (
        sec_lines(a[0]) + flatten_sections(a.drop_first())) + flatten_sections(b));
    }
}

pub proof fn lemma_sections_text_concat(a: Seq<SectionModel>, b: Seq<SectionModel>)
    ensures
        sections_text(a + b) == sections_text(a) + sections_text(b),
{
    lemma_flatten_concat(a, b);
    lemma_lines_text_concat(flatten_sections(a), flatten_sections(b));
}

/// One section's text: its header line, then its body lines, in order.
pub fn section_text(sec: &Section) -> (r: String)
    ensures
        r@ == lines_text(sec_lines(sec@)),
{
    proof {
        reveal_strlit("\n");
        assert("\n"@ =~= nl());
    }
    let ghost h: Seq<char> = sec.header@;
    let mut out = sec.header.clone();
    out.append("\n");
    assert(out@ =~= h + nl() + lines_text(sec.body.deep_view().subrange(0, 0)));
    let mut k: usize = 0;
    while k < sec.body.len()
        invariant
            0 <= k <= sec.body.len(),
            sec.body.deep_view().len() == sec.body.len(),
            h == sec.header@,
            "\n"@ == nl(),
            out@ == h + nl() + lines_text(sec.body.deep_view().subrange(0, k as int)),
        decreases sec.body.len() - k,
    {
        out.append(sec.body[k].as_str());
        out.append("\n");
        proof {
            lemma_lines_text_snoc(
                sec.body.deep_view().subrange(0, k as int),
                sec.body.deep_view()[k as int],
            );
            assert(sec.body.deep_view().subrange(0, k + 1) =~~= sec.body.deep_view().subrange(
                0,
                k as int,
            ).push(sec.body.deep_view()[k as int]));
            assert(out@ =~= h + nl() + lines_text(sec.body.deep_view().subrange(0, k + 1)));
        }
        k += 1;
    }
    proof {
        let bdv = sec.body.deep_view();
        assert(bdv.subrange(0, bdv.len() as int) =~~= bdv);
        assert((seq![h] + bdv)[0] == h);
        assert((seq![h] + bdv).drop_first() =~~= bdv);
        assert(lines_text(sec_lines(sec@)) == h + nl() + lines_text(bdv));
    }
    out
}

/// The full text of a section list, ready to be written back.
pub fn serialize_sections(ss: &Vec<Section>) -> (r: String)
    ensures
        r@ == sections_text(ss.deep_view()),
{
    let ghost sdv: Seq<SectionModel> = ss.deep_view();
    let mut out = String::new();
    assert(out@ =~= sections_text(sdv.subrange(0, 0))) by {
        assert(sdv.subrange(0, 0) =~~= Seq::<SectionModel>::empty());
    }
    let mut i: usize = 0;
    while i < ss.len()
        invariant
            0 <= i <= ss.len(),
            sdv == ss.deep_view(),
            sdv.len() == ss.len(),
            out@ == sections_text(sdv.subrange(0, i as int)),
        decreases ss.len() - i,
    {
        let piece = section_text(&ss[i]);
        out.append(piece.as_str());
        proof {
            lemma_flatten_snoc(sdv.subrange(0, i as int), sdv[i as int]);
            lemma_lines_text_concat(
                flatten_sections(sdv.subrange(0, i as int)),
                sec_lines(sdv[i as int]),
            );
            assert(sdv.subrange(0, i + 1) =~~= sdv.subrange(0, i as int).push(sdv[i as int]));
            assert(out@ =~= sections_text(sdv.subrange(0, i + 1)));
        }
        i += 1;
    }
    proof {
        assert(sdv.subrange(0, sdv.len() as int) =~~= sdv);
    }
    out
}

// ---------------------------------------------------------------------------
// Listing captures.
// ---------------------------------------------------------------------------

/// The decodable header fields of each section, in order; sections whose
/// header does not decode are passed over.
pub open spec fn keys_of_sections(ss: Seq<SectionModel>) -> Seq<KeyModel>
    decreases ss.len(),
{
    if ss.len() == 0 {
        Seq::empty()
    } else {
        match decode_spec(ss[0].0) {
            Some(k) => seq![k] + keys_of_sections(ss.drop_first()),
            None => keys_of_sections(ss.drop_first()),
        }
    }
}

/// The captures that one file's lines hold.
pub open spec fn keys_of_lines(lines: Seq<Seq<char>>) -> Seq<KeyModel> {
    keys_of_sections(split_spec(lines))
}

pub proof fn lemma_keys_snoc(ss: Seq<SectionModel>, c: SectionModel)
    ensures
        keys_of_sections(ss.push(c)) == keys_of_sections(ss) + (match decode_spec(c.0) {
            Some(k) => seq![k],
            None => Seq::empty(),
        }),
    decreases ss.len(),
{
    let tail: Seq<KeyModel> = match decode_spec(c.0) {
        Some(k) => seq![k],
        None => Seq::empty(),
    };
    if ss.len() == 0 {
        assert(ss.push(c)[0] == c);
        assert(ss.push(c).drop_first() =~~= Seq::<SectionModel>::empty());
        assert(keys_of_sections(Seq::<SectionModel>::empty()) == Seq::<KeyModel>::empty());
        assert(keys_of_sections(ss) == Seq::<KeyModel>::empty());
        match decode_spec(c.0) {
            Some(k) => {
                assert(keys_of_sections(ss.push(c)) == seq![k] + Seq::<KeyModel>::empty());
                assert(seq![k] + Seq::<KeyModel>::empty() =~~= Seq::<KeyModel>::empty() + seq![k]);
            },
            None => {
                assert(keys_of_sections(ss.push(c)) == Seq::<KeyModel>::empty());
                assert(Seq::<KeyModel>::empty() + Seq::<KeyModel>::empty()
                    =~~= Seq::<KeyModel>::empty());
            },
        }
    } else {
        assert(ss.push(c)[0] == ss[0]);
        assert(ss.push(c).drop_first() =~~= ss.drop_first().push(c));
        lemma_keys_snoc(ss.drop_first(), c);
        match decode_spec(ss[0].0) {
            Some(k) => {
                assert(seq![k] + (keys_of_sections(ss.drop_first()) + tail) =~~= (seq![k]
                    + keys_of_sections(ss.drop_first())) + tail);
            },
            None => {},
        }
    }
}

/// All captures in one file's lines: split into sections, decode each
/// section's header, keep what decodes, in source order.
pub fn captures_in_lines(lines: &Vec<String>) -> (r: Vec<CaptureKey>)
    ensures
        r.deep_view() == keys_of_lines(lines.deep_view()),
{
    let sections = split_sections(lines);
    let ghost sdv: Seq<SectionModel> = sections.deep_view();
    let mut out: Vec<CaptureKey> = Vec::new();
    assert(out.deep_view() =~~= keys_of_sections(sdv.subrange(0, 0))) by {
        assert(sdv.subrange(0, 0) =~~= Seq::<SectionModel>::empty());
    }
    let mut i: usize = 0;
    while i < sections.len()
        invariant
            0 <= i <= sections.len(),
            sdv == sections.deep_view(),
            sdv.len() == sections.len(),
            sdv == split_spec(lines.deep_view()),
            out.deep_view() == keys_of_sections(sdv.subrange(0, i as int)),
        decreases sections.len() - i,
    {
        assert(sections@[i as int].deep_view() == sdv[i as int]);
        match decode_header(sections[i].header.as_str()) {
            Some(key) => {
                out.push(key);
            },
            None => {},
        }
        proof {
            lemma_keys_snoc(sdv.subrange(0, i as int), sdv[i as int]);
            assert(sdv.subrange(0, i + 1) =~~= sdv.subrange(0, i as int).push(sdv[i as int]));
            assert(out.deep_view() =~~= keys_of_sections(sdv.subrange(0, i + 1)));
        }
        i += 1;
    }
    proof {
        assert(sdv.subrange(0, sdv.len() as int) =~~= sdv);
    }
    out
}

// ---------------------------------------------------------------------------
// Listing captures across files.
// ---------------------------------------------------------------------------

/// All captures across all files, per-file order kept, files in the order
/// given.
pub open spec fn all_keys(files: Seq<Seq<Seq<char>>>) -> Seq<KeyModel>
    decreases files.len(),
{
    if files.len() == 0 {
        Seq::empty()
    } else {
        keys_of_lines(files[0]) + all_keys(files.drop_first())
    }
}

pub proof fn lemma_all_keys_snoc(files: Seq<Seq<Seq<char>>>, f: Seq<Seq<char>>)
    ensures
        all_keys(files.push(f)) == all_keys(files) + keys_of_lines(f),
    decreases files.len(),
{
    if files.len() == 0 {
        assert(files.push(f)[0] == f);
        assert(files.push(f).drop_first() =~~= Seq::<Seq<Seq<char>>>::empty());
        assert(all_keys(files.push(f)) == keys_of_lines(f) + all_keys(
            Seq::<Seq<Seq<char>>>::empty(),
        ));
        assert(keys_of_lines(f) + Seq::<KeyModel>::empty() =~~= Seq::<KeyModel>::empty()
            + keys_of_lines(f));
        assert(all_keys(files) == Seq::<KeyModel>::empty());
    } else {
        assert(files.push(f)[0] == files[0]);
        assert(files.push(f).drop_first() =~~= files.drop_first().push(f));
        lemma_all_keys_snoc(files.drop_first(), f);
        assert(all_keys(files.push(f)) == keys_of_lines(files[0]) + (all_keys(files.drop_first())
            + keys_of_lines(f)));
        assert(all_keys(files) == keys_of_lines(files[0]) + all_keys(files.drop_first()));
        assert(keys_of_lines(files[0]) + (all_keys(files.drop_first()) + keys_of_lines(f)) =~~= (
        keys_of_lines(files[0]) + all_keys(files.drop_first())) + keys_of_lines(f));
    }
}

/// Lists every capture across the given files' lines.  When no file holds a
/// single decodable header, that is a not-found error, not an empty
/// success: callers treat "no captures anywhere" as a failed load.
pub fn load_captures(files: &Vec<Vec<String>>) -> (r: Result<Vec<CaptureKey>, Error>)
    ensures
        match r {
            Ok(ks) => {
                &&& all_keys(files.deep_view()).len() > 0
                &&& ks.deep_view() == all_keys(files.deep_view())
            },
            Err(e) => {
                &&& all_keys(files.deep_view()).len() == 0
                &&& e == Error::FileNotFound
            },
        },
{
    let ghost fdv: Seq<Seq<Seq<char>>> = files.deep_view();
    let mut out: Vec<CaptureKey> = Vec::new();
    assert(out.deep_view() =~~= all_keys(fdv.subrange(0, 0))) by {
        assert(fdv.subrange(0, 0) =~~= Seq::<Seq<Seq<char>>>::empty());
    }
    let mut i: usize = 0;
    while i < files.len()
        invariant
            0 <= i <= files.len(),
            fdv == files.deep_view(),
            fdv.len() == files.len(),
            out.deep_view() == all_keys(fdv.subrange(0, i as int)),
        decreases files.len() - i,
    {
        assert(files@[i as int].deep_view() == fdv[i as int]);
        let ghost prev: Seq<KeyModel> = out.deep_view();
        let mut ks = captures_in_lines(&files[i]);
        let ghost ksdv: Seq<KeyModel> = ks.deep_view();
        out.append(&mut ks);
        proof {
            assert(out.deep_view() =~~= prev + ksdv);
            lemma_all_keys_snoc(fdv.subrange(0, i as int), fdv[i as int]);
            assert(fdv.subrange(0, i + 1) =~~= fdv.subrange(0, i as int).push(fdv[i as int]));
            assert(out.deep_view() =~~= all_keys(fdv.subrange(0, i + 1)));
        }
        i += 1;
    }
    proof {
        assert(fdv.subrange(0, fdv.len() as int) =~~= fdv);
        assert(out.deep_view().len() == out@.len());
    }
    if out.len() == 0 {
        Err(Error::FileNotFound)
    } else {
        Ok(out)
    }
}

// ---------------------------------------------------------------------------
// Locating a capture by its re-encoded header.
// ---------------------------------------------------------------------------

/// Index of the first section whose header equals `target`, or `ss.len()`.
pub open spec fn match_index(ss: Seq<SectionModel>, target: Seq<char>) -> int
    decreases ss.len(),
{
    if ss.len() == 0 {
        0
    } else if ss[0].0 == target {
        0
    } else {
        1 + match_index(ss.drop_first(), target)
    }
}

pub open spec fn has_match(ss: Seq<SectionModel>, target: Seq<char>) -> bool {
    match_index(ss, target) < ss.len()
}

/// The concatenated bodies of every section whose header equals `target`.
pub open spec fn merged_body(ss: Seq<SectionModel>, target: Seq<char>) -> Seq<Seq<char>>
    decreases ss.len(),
{
    if ss.len() == 0 {
        Seq::empty()
    } else if ss[0].0 == target {
        ss[0].1 + merged_body(ss.drop_first(), target)
    } else {
        merged_body(ss.drop_first(), target)
    }
}

/// The sections whose header differs from `target`, in order.
pub open spec fn nonmatching(ss: Seq<SectionModel>, target: Seq<char>) -> Seq<SectionModel>
    decreases ss.len(),
{
    if ss.len() == 0 {
        Seq::empty()
    } else if ss[0].0 == target {
        nonmatching(ss.drop_first(), target)
    } else {
        seq![ss[0]] + nonmatching(ss.drop_first(), target)
    }
}

/// The sections that precede the first match (all of them when there is no
/// match).
pub open spec fn partition_before(ss: Seq<SectionModel>, target: Seq<char>) -> Seq<SectionModel> {
    if has_match(ss, target) {
        ss.subrange(0, match_index(ss, target))
    } else {
        ss
    }
}

/// The located capture itself: the target header with the bodies of every
/// matching section, or the empty section when there is no match.
pub open spec fn partition_content(ss: Seq<SectionModel>, target: Seq<char>) -> SectionModel {
    if has_match(ss, target) {
        (target, merged_body(ss, target))
    } else {
        (Seq::empty(), Seq::empty())
    }
}

/// The non-matching sections that follow the first match (none when there
/// is no match).
pub open spec fn partition_after(ss: Seq<SectionModel>, target: Seq<char>) -> Seq<SectionModel> {
    if has_match(ss, target) {
        nonmatching(ss.subrange(match_index(ss, target) + 1, ss.len() as int), target)
    } else {
        Seq::empty()
    }
}

pub proof fn lemma_match_index_bounds(ss: Seq<SectionModel>, target: Seq<char>)
    ensures
        0 <= match_index(ss, target) <= ss.len(),
        match_index(ss, target) < ss.len() ==> ss[match_index(ss, target)].0 == target,
        forall|p: int| 0 <= p < match_index(ss, target) ==> (#[trigger] ss[p]).0 != target,
    decreases ss.len(),
{
    if ss.len() == 0 {
    } else if ss[0].0 == target {
    } else {
        lemma_match_index_bounds(ss.drop_first(), target);
        let mi = match_index(ss, target);
        assert forall|p: int| 0 <= p < mi implies (#[trigger] ss[p]).0 != target by {
            if p > 0 {
                assert(ss.drop_first()[p - 1] == ss[p]);
            }
        }
        if mi < ss.len() {
            assert(ss.drop_first()[mi - 1] == ss[mi]);
        }
    }
}

/// A match at `j` with none before it is the first match.
pub proof fn lemma_match_found(ss: Seq<SectionModel>, target: Seq<char>, j: int)
    requires
        0 <= j < ss.len(),
        ss[j].0 == target,
        forall|p: int| 0 <= p < j ==> (#[trigger] ss[p]).0 != target,
    ensures
        match_index(ss, target) == j,
    decreases j,
{
    if j == 0 {
    } else {
        assert(ss[0].0 != target);
        assert(ss.drop_first()[j - 1] == ss[j]);
        assert forall|p: int| 0 <= p < j - 1 implies (#[trigger] ss.drop_first()[p]).0 != target by {
            assert(ss.drop_first()[p] == ss[p + 1]);
        }
        lemma_match_found(ss.drop_first(), target, j - 1);
    }
}

/// With no match anywhere, `match_index` is `ss.len()`.
pub proof fn lemma_match_none(ss: Seq<SectionModel>, target: Seq<char>)
    requires
        forall|p: int| 0 <= p < ss.len() ==> (#[trigger] ss[p]).0 != target,
    ensures
        match_index(ss, target) == ss.len(),
    decreases ss.len(),
{
    if ss.len() > 0 {
        assert forall|p: int| 0 <= p < ss.drop_first().len() implies (#[trigger] ss.drop_first()[p]).0
            != target by {
            assert(ss.drop_first()[p] == ss[p + 1]);
        }
        lemma_match_none(ss.drop_first(), target);
    }
}

pub proof fn lemma_merged_body_snoc(ss: Seq<SectionModel>, c: SectionModel, target: Seq<char>)
    ensures
        merged_body(ss.push(c), target) == merged_body(ss, target) + (if c.0 == target {
            c.1
        } else {
            Seq::empty()
        }),
    decreases ss.len(),
{
    let tail: Seq<Seq<char>> = if c.0 == target {
        c.1
    } else {
        Seq::empty()
    };
    if ss.len() == 0 {
        assert(ss.push(c)[0] == c);
        assert(ss.push(c).drop_first() =~~= Seq::<SectionModel>::empty());
        assert(merged_body(Seq::<SectionModel>::empty(), target) == Seq::<Seq<char>>::empty());
        if c.0 == target {
            assert(merged_body(ss.push(c), target) == c.1 + Seq::<Seq<char>>::empty());
            assert(c.1 + Seq::<Seq<char>>::empty() =~~= Seq::<Seq<char>>::empty() + c.1);
        } else {
            assert(Seq::<Seq<char>>::empty() + Seq::<Seq<char>>::empty() =~~= Seq::<
                Seq<char>,
            >::empty());
        }
    } else {
        assert(ss.push(c)[0] == ss[0]);
        assert(ss.push(c).drop_first() =~~= ss.drop_first().push(c));
        lemma_merged_body_snoc(ss.drop_first(), c, target);
        if ss[0].0 == target {
            assert(ss[0].1 + (merged_body(ss.drop_first(), target) + tail) =~~= (ss[0].1
                + merged_body(ss.drop_first(), target)) + tail);
        }
    }
}

pub proof fn lemma_merged_body_none(ss: Seq<SectionModel>, target: Seq<char>)
    requires
        forall|p: int| 0 <= p < ss.len() ==> (#[trigger] ss[p]).0 != target,
    ensures
        merged_body(ss, target) == Seq::<Seq<char>>::empty(),
    decreases ss.len(),
{
    if ss.len() > 0 {
        assert forall|p: int| 0 <= p < ss.drop_first().len() implies (#[trigger] ss.drop_first()[p]).0
            != target by {
            assert(ss.drop_first()[p] == ss[p + 1]);
        }
        lemma_merged_body_none(ss.drop_first(), target);
    }
}

pub proof fn lemma_nonmatching_snoc(ss: Seq<SectionModel>, c: SectionModel, target: Seq<char>)
    ensures
        nonmatching(ss.push(c), target) == nonmatching(ss, target) + (if c.0 == target {
            Seq::empty()
        } else {
            seq![c]
        }),
    decreases ss.len(),
{
    let tail: Seq<SectionModel> = if c.0 == target {
        Seq::empty()
    } else {
        seq![c]
    };
    if ss.len() == 0 {
        assert(ss.push(c)[0] == c);
        assert(ss.push(c).drop_first() =~~= Seq::<SectionModel>::empty());
        assert(nonmatching(Seq::<SectionModel>::empty(), target) == Seq::<SectionModel>::empty());
        if c.0 == target {
            assert(Seq::<SectionModel>::empty() + Seq::<SectionModel>::empty() =~~= Seq::<
                SectionModel,
            >::empty());
        } else {
            assert(seq![c] + Seq::<SectionModel>::empty() =~~= Seq::<SectionModel>::empty()
                + seq![c]);
        }
    } else {
        assert(ss.push(c)[0] == ss[0]);
        assert(ss.push(c).drop_first() =~~= ss.drop_first().push(c));
        lemma_nonmatching_snoc(ss.drop_first(), c, target);
        if ss[0].0 != target {
            assert(seq![ss[0]] + (nonmatching(ss.drop_first(), target) + tail) =~~= (seq![ss[0]]
                + nonmatching(ss.drop_first(), target)) + tail);
        }
    }
}

proof fn lemma_subrange_push(s: Seq<SectionModel>, a: int, b: int)
    requires
        0 <= a <= b < s.len(),
    ensures
        s.subrange(a, b + 1) == s.subrange(a, b).push(s[b]),
{
    assert(s.subrange(a, b + 1) =~~= s.subrange(a, b).push(s[b]));
}

/// Copies the elements of `src` onto the end of `dst`.
fn push_all(dst: &mut Vec<String>, src: &Vec<String>)
    ensures
        final(dst).deep_view() == old(dst).deep_view() + src.deep_view(),
{
    let ghost base: Seq<Seq<char>> = dst.deep_view();
    let mut k: usize = 0;
    assert(dst.deep_view() =~~= base + src.deep_view().subrange(0, 0));
    while k < src.len()
        invariant
            0 <= k <= src.len(),
            src.deep_view().len() == src.len(),
            dst.deep_view() == base + src.deep_view().subrange(0, k as int),
        decreases src.len() - k,
    {
        let ghost pre: Seq<Seq<char>> = dst.deep_view();
        dst.push(src[k].clone());
        proof {
            assert(dst.deep_view() =~~= pre.push(src.deep_view()[k as int]));
            assert(pre.push(src.deep_view()[k as int]) =~~= base + src.deep_view().subrange(
                0,
                k + 1,
            ));
        }
        k += 1;
    }
    proof {
        assert(src.deep_view().subrange(0, src.deep_view().len() as int) =~~= src.deep_view());
    }
}

/// Partitions a file's sections around the capture whose header equals
/// `target`, by exact string equality.  `before` holds the sections that
/// precede the first match, the content section holds the matched header
/// with the bodies of every matching section, `after` the non-matching
/// sections that follow the first match.  Without a match, every section
/// lands in `before` and the content section stays empty: callers must
/// check for an empty content header before trusting the partition.
pub fn locate_capture(sections: &Vec<Section>, target: &str) -> (r: (
    Vec<Section>,
    Section,
    Vec<Section>,
))
    ensures
        ({
            let ss = sections.deep_view();
            let t = target@;
            &&& r.0.deep_view() == partition_before(ss, t)
            &&& r.1@ == partition_content(ss, t)
            &&& r.2.deep_view() == partition_after(ss, t)
        }),
{
    let ghost sdv: Seq<SectionModel> = sections.deep_view();
    let ghost t: Seq<char> = target@;
    let mut before: Vec<Section> = Vec::new();
    let mut after: Vec<Section> = Vec::new();
    let mut content_header = String::new();
    let mut content_body: Vec<String> = Vec::new();
    let mut found: bool = false;
    assert(before.deep_view() =~~= sdv.subrange(0, 0));
    assert(content_body.deep_view() =~~= Seq::<Seq<char>>::empty());
    assert(after.deep_view() =~~= Seq::<SectionModel>::empty());
    let mut i: usize = 0;
    while i < sections.len()
        invariant
            0 <= i <= sections.len(),
            sdv == sections.deep_view(),
            sdv.len() == sections.len(),
            t == target@,
            !found ==> {
                &&& forall|p: int| 0 <= p < i ==> (#[trigger] sdv[p]).0 != t
                &&& before.deep_view() == sdv.subrange(0, i as int)
                &&& content_header@ == Seq::<char>::empty()
                &&& content_body.deep_view() == Seq::<Seq<char>>::empty()
                &&& after.deep_view() == Seq::<SectionModel>::empty()
            },
            found ==> {
                &&& match_index(sdv, t) < i
                &&& has_match(sdv, t)
                &&& before.deep_view() == sdv.subrange(0, match_index(sdv, t))
                &&& content_header@ == t
                &&& content_body.deep_view() == merged_body(sdv.subrange(0, i as int), t)
                &&& after.deep_view() == nonmatching(
                    sdv.subrange(match_index(sdv, t) + 1, i as int),
                    t,
                )
            },
        decreases sections.len() - i,
    {
        let sec = &sections[i];
        assert(sec@ == sdv[i as int]);
        if crate::codec::str_eq(sec.header.as_str(), target) {
            if !found {
                proof {
                    lemma_match_found(sdv, t, i as int);
                    lemma_merged_body_none(sdv.subrange(0, i as int), t);
                }
                found = true;
            }
            content_header = sec.header.clone();
            let ghost body_pre: Seq<Seq<char>> = content_body.deep_view();
            push_all(&mut content_body, &sec.body);
            proof {
                let mi = match_index(sdv, t);
                lemma_match_index_bounds(sdv, t);
                lemma_merged_body_snoc(sdv.subrange(0, i as int), sdv[i as int], t);
                assert(sdv.subrange(0, i + 1) =~~= sdv.subrange(0, i as int).push(sdv[i as int]));
                assert(content_body.deep_view() =~~= merged_body(sdv.subrange(0, i + 1), t));
                if mi < i {
                    lemma_nonmatching_snoc(sdv.subrange(mi + 1, i as int), sdv[i as int], t);
                    lemma_subrange_push(sdv, mi + 1, i as int);
                } else {
                    assert(mi == i);
                    assert(sdv.subrange(mi + 1, i + 1) =~~= Seq::<SectionModel>::empty());
                    assert(nonmatching(Seq::<SectionModel>::empty(), t) == Seq::<
                        SectionModel,
                    >::empty());
                }
                assert(after.deep_view() =~~= nonmatching(sdv.subrange(mi + 1, i + 1), t));
            }
        } else {
            assert(sdv[i as int].0 != t);
            if !found {
                before.push(sec.duplicate());
                proof {
                    assert(before.deep_view() =~~= sdv.subrange(0, i + 1));
                }
            } else {
                after.push(sec.duplicate());
                proof {
                    let mi = match_index(sdv, t);
                    lemma_match_index_bounds(sdv, t);
                    lemma_nonmatching_snoc(sdv.subrange(mi + 1, i as int), sdv[i as int], t);
                    lemma_subrange_push(sdv, mi + 1, i as int);
                    assert(after.deep_view() =~~= nonmatching(sdv.subrange(mi + 1, i + 1), t));
                    lemma_merged_body_snoc(sdv.subrange(0, i as int), sdv[i as int], t);
                    lemma_subrange_push(sdv, 0, i as int);
                    assert(merged_body(sdv.subrange(0, i as int), t) + Seq::<Seq<char>>::empty()
                        =~~= merged_body(sdv.subrange(0, i as int), t));
                }
            }
        }
        i += 1;
    }
    proof {
        if !found {
            lemma_match_none(sdv, t);
            assert(sdv.subrange(0, sdv.len() as int) =~~= sdv);
        } else {
            assert(sdv.subrange(0, sdv.len() as int) =~~= sdv);
            assert(merged_body(sdv.subrange(0, sdv.len() as int), t) == merged_body(sdv, t));
        }
    }
    let content = Section { header: content_header, body: content_body };
    (before, content, after)
}

// ---------------------------------------------------------------------------
// File-name conventions.
// ---------------------------------------------------------------------------

/// The topic encoded in a capture file's name: the name without its leading
/// `_` and trailing `.md`.
pub open spec fn topic_of_file(name: Seq<char>) -> Seq<char> {
    name.subrange(1, name.len() - 3)
}

/// The capture file that holds a topic's captures: `_{topic}.md`.
pub open spec fn capture_file_name(topic: Seq<char>) -> Seq<char> {
    seq!['_'] + topic + seq!['.', 'm', 'd']
}

/// A topic survives the trip into a file name and back: the name built for
/// it yields it again, so the read key reconstructed from a capture's file
/// re-encodes to exactly the header the append wrote.
pub proof fn lemma_topic_file_name_round_trip(topic: Seq<char>)
    ensures
        capture_file_name(topic).len() >= 4,
        topic_of_file(capture_file_name(topic)) == topic,
{
    let name = capture_file_name(topic);
    assert(name.subrange(1, name.len() - 3) =~= topic);
}

/// The topic a capture file's name stands for.
pub fn topic_of_file_name(name: &str) -> (r: String)
    requires
        name@.len() >= 4,
    ensures
        r@ == topic_of_file(name@),
{
    name.substring_char(1, name.unicode_len() - 3).to_owned()
}

/// The name of the capture file for a topic: `_{topic}.md`.
pub fn file_name_of_topic(topic: &str) -> (r: String)
    ensures
        r@ == capture_file_name(topic@),
{
    proof {
        reveal_strlit("_");
        reveal_strlit(".md");
    }
    let mut out = "_".to_owned();
    out.append(topic);
    out.append(".md");
    proof {
        assert(out@ =~= capture_file_name(topic@));
    }
    out
}

// ---------------------------------------------------------------------------
// The read, delete, append and replace operations.
// ---------------------------------------------------------------------------

/// Reads one capture with its context.  The expected header is re-encoded
/// from `(timestamp, file_name, subject)` — the topic is the file name
/// without its `_` and `.md` — and the file's sections are partitioned
/// around the exact header match, as `locate_capture` describes.
pub fn read_capture(lines: &Vec<String>, timestamp: &str, file_name: &str, subject: &str) -> (r: (
    Vec<Section>,
    Section,
    Vec<Section>,
))
    requires
        file_name@.len() >= 4,
    ensures
        ({
            let ss = split_spec(lines.deep_view());
            let t = header_text(timestamp@, topic_of_file(file_name@), subject@);
            &&& r.0.deep_view() == partition_before(ss, t)
            &&& r.1@ == partition_content(ss, t)
            &&& r.2.deep_view() == partition_after(ss, t)
        }),
{
    let topic = topic_of_file_name(file_name);
    let header = encode_header(timestamp, topic.as_str(), subject);
    let sections = split_sections(lines);
    locate_capture(&sections, header.as_str())
}

/// The file text after deleting the capture `(timestamp, topic, subject)`:
/// the sections before the match, then the non-matching sections after it,
/// reserialized in order.  The matched section's header and body are
/// omitted entirely; every other section is kept byte for byte.  A capture
/// that no section's header matches cannot be located: that is
/// `FileNotFound`, and the file must stay as it is.
pub fn delete_capture(lines: &Vec<String>, timestamp: &str, topic: &str, subject: &str) -> (r:
    Result<String, Error>)
    ensures
        ({
            let ss = split_spec(lines.deep_view());
            let t = header_text(timestamp@, topic@, subject@);
            match r {
                Ok(s) => {
                    &&& has_match(ss, t)
                    &&& s@ == sections_text(partition_before(ss, t) + partition_after(ss, t))
                },
                Err(e) => {
                    &&& !has_match(ss, t)
                    &&& e == Error::FileNotFound
                },
            }
        }),
{
    let header = encode_header(timestamp, topic, subject);
    let sections = split_sections(lines);
    let (before, content, after) = locate_capture(&sections, header.as_str());
    proof {
        assert(header@.len() >= 24);
    }
    if content.header.as_str().is_empty() {
        Err(Error::FileNotFound)
    } else {
        let mut out = serialize_sections(&before);
        let after_text = serialize_sections(&after);
        out.append(after_text.as_str());
        proof {
            lemma_sections_text_concat(before.deep_view(), after.deep_view());
        }
        Ok(out)
    }
}

/// The text of one freshly captured section: the encoded header line, then
/// the body text, each terminated by a newline.
pub fn make_capture_text(timestamp: &str, topic: &str, subject: &str, body: &str) -> (r: String)
    ensures
        r@ == header_text(timestamp@, topic@, subject@) + nl() + body@ + nl(),
{
    proof {
        reveal_strlit("\n");
        assert("\n"@ =~= nl());
    }
    let mut out = encode_header(timestamp, topic, subject);
    out.append("\n");
    out.append(body);
    out.append("\n");
    proof {
        assert(out@ =~= header_text(timestamp@, topic@, subject@) + nl() + body@ + nl());
    }
    out
}

/// What an append must write.  A raw byte append: the file's existing
/// structure is not re-validated, it is assumed to end cleanly.
pub enum WritePlan {
    /// The file does not exist: create it with exactly these bytes.
    Create(String),
    /// The file exists: append these bytes (a separating newline, then the
    /// capture) to its end.
    Append(String),
}

/// Plans the append of a capture's text to a file that may or may not
/// exist.
pub fn append_plan(file_exists: bool, capture_text: &str) -> (r: WritePlan)
    ensures
        match r {
            WritePlan::Create(s) => !file_exists && s@ == capture_text@,
            WritePlan::Append(s) => file_exists && s@ == nl() + capture_text@,
        },
{
    proof {
        reveal_strlit("\n");
        assert("\n"@ =~= nl());
    }
    if file_exists {
        let mut out = "\n".to_owned();
        out.append(capture_text);
        WritePlan::Append(out)
    } else {
        WritePlan::Create(capture_text.to_owned())
    }
}

/// The full text that replaces a capture's body while preserving its
/// context: the `before` sections, a fresh header with the new body, then
/// the `after` sections, written back in one piece.
pub fn replace_capture(
    before: &Vec<Section>,
    timestamp: &str,
    topic: &str,
    subject: &str,
    body: &str,
    after: &Vec<Section>,
) -> (r: String)
    ensures
        r@ == sections_text(before.deep_view()) + header_text(timestamp@, topic@, subject@) + nl()
            + body@ + nl() + sections_text(after.deep_view()),
{
    let mut out = serialize_sections(before);
    let capture = make_capture_text(timestamp, topic, subject, body);
    out.append(capture.as_str());
    let after_text = serialize_sections(after);
    out.append(after_text.as_str());
    proof {
        assert(out@ =~= sections_text(before.deep_view()) + header_text(
            timestamp@,
            topic@,
            subject@,
        ) + nl() + body@ + nl() + sections_text(after.deep_view()));
    }
    out
}

// ---------------------------------------------------------------------------
// Resolving listed capture records.
// ---------------------------------------------------------------------------

/// The `(timestamp, topic, subject)` fields of a listed capture record.  A
/// record with fewer than three fields cannot be acted on.
pub fn capture_fields(capture: &Vec<String>) -> (r: Result<(String, String, String), Error>)
    ensures
        match r {
            Ok(f) => {
                &&& capture@.len() >= 3
                &&& f.0@ == capture.deep_view()[0]
                &&& f.1@ == capture.deep_view()[1]
                &&& f.2@ == capture.deep_view()[2]
            },
            Err(e) => {
                &&& capture@.len() < 3
                &&& e == Error::IoError(IoKind::Other)
            },
        },
{
    if capture.len() >= 3 {
        Ok((capture[0].clone(), capture[1].clone(), capture[2].clone()))
    } else {
        Err(Error::IoError(IoKind::Other))
    }
}

/// Resolves a selected capture record to `(timestamp, file_name, subject)`;
/// the containing file's name is rebuilt from the record's topic as
/// `_{topic}.md`.
pub fn capture_opened(capture: &Vec<String>) -> (r: Result<(String, String, String), Error>)
    ensures
        match r {
            Ok(f) => {
                &&& capture@.len() >= 3
                &&& f.0@ == capture.deep_view()[0]
                &&& f.1@ == capture_file_name(capture.deep_view()[1])
                &&& f.2@ == capture.deep_view()[2]
            },
            Err(e) => {
                &&& capture@.len() < 3
                &&& e == Error::IoError(IoKind::NotFound)
            },
        },
{
    if capture.len() >= 3 {
        let file = file_name_of_topic(capture[1].as_str());
        Ok((capture[0].clone(), file, capture[2].clone()))
    } else {
        Err(Error::IoError(IoKind::NotFound))
    }
}

} // verus!
