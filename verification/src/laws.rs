//! The store's end-to-end laws: what appending, listing, reading and
//! deleting guarantee when composed, stated over the same spec functions
//! that the operations' own contracts use.

use vstd::prelude::*;
use crate::codec::KeyModel;
use crate::codec::delim_free;
use crate::codec::field_ok;
use crate::codec::header_text;
use crate::codec::is_header;
use crate::codec::lemma_header_is_header;
use crate::codec::lemma_header_line_shape;
use crate::codec::lemma_header_round_trip;
use crate::codec::no_newline;
use crate::lines::clean_line;
use crate::lines::clean_text;
use crate::lines::lemma_join_split_lines;
use crate::lines::lemma_split_join_lines;
use crate::lines::lines_text;
use crate::lines::split_lines_spec;
use crate::splitter::SectionModel;
use crate::splitter::flatten_sections;
use crate::splitter::lemma_split_cont_of_flatten;
use crate::splitter::lemma_split_of_flatten;
use crate::splitter::lemma_split_reassemble_identity;
use crate::splitter::opt_section;
use crate::splitter::sec_lines;
use crate::splitter::split_cont;
use crate::splitter::split_spec;
use crate::splitter::wf_section;
use crate::splitter::wf_sections;
use crate::store::has_match;
use crate::store::keys_of_lines;
use crate::store::keys_of_sections;
use crate::store::lemma_match_found;
use crate::store::lemma_match_index_bounds;
use crate::store::lemma_merged_body_none;
use crate::store::lemma_merged_body_snoc;
use crate::store::match_index;
use crate::store::merged_body;
use crate::store::nonmatching;
use crate::store::partition_after;
use crate::store::partition_before;
use crate::store::partition_content;
use crate::store::lemma_sections_text_concat;
use crate::store::sections_text;

verus! {

// ---------------------------------------------------------------------------
// Splitting lines that end in a freshly appended section.
// ---------------------------------------------------------------------------

proof fn lemma_split_cont_append(
    lines: Seq<Seq<char>>,
    xs_len: int,
    i: int,
    done: Seq<SectionModel>,
    cur: Option<SectionModel>,
    h: Seq<char>,
    body: Seq<Seq<char>>,
)
    requires
        0 <= i <= xs_len <= lines.len(),
        lines.len() == xs_len + 1 + body.len(),
        lines.subrange(xs_len, lines.len() as int) == seq![h] + body,
        is_header(h),
        forall|k: int| 0 <= k < body.len() ==> !is_header(#[trigger] body[k]),
    ensures
        split_cont(lines, i, done, cur) == split_cont(lines.subrange(0, xs_len), i, done, cur)
            + seq![(h, body)],
    decreases xs_len - i,
{
    let xs = lines.subrange(0, xs_len);
    if i == xs_len {
        assert(split_cont(xs, i, done, cur) == done + opt_section(cur));
        assert(lines[i] == (seq![h] + body)[0]);
        assert(lines[i] == h);
        assert(split_cont(lines, i, done, cur) == split_cont(
            lines,
            i + 1,
            done + opt_section(cur),
            Some((lines[i], Seq::empty())),
        ));
        assert(flatten_sections(Seq::<SectionModel>::empty()) == Seq::<Seq<char>>::empty());
        assert forall|k: int| 0 <= k < body.len() implies lines[i + 1 + k] == body[k] by {
            assert(lines.subrange(xs_len, lines.len() as int)[k + 1] == lines[xs_len + k + 1]);
            assert((seq![h] + body)[k + 1] == body[k]);
        }
        assert(lines.subrange(i + 1, lines.len() as int) =~~= body + flatten_sections(
            Seq::<SectionModel>::empty(),
        ));
        lemma_split_cont_of_flatten(
            lines,
            i + 1,
            done + opt_section(cur),
            lines[i],
            Seq::empty(),
            body,
            Seq::empty(),
        );
        assert((done + opt_section(cur)) + seq![(h, Seq::<Seq<char>>::empty() + body)] + Seq::<
            SectionModel,
        >::empty() =~~= (done + opt_section(cur)) + seq![(h, body)]);
    } else {
        assert(lines[i] == xs[i]);
        if is_header(lines[i]) {
            lemma_split_cont_append(
                lines,
                xs_len,
                i + 1,
                done + opt_section(cur),
                Some((lines[i], Seq::empty())),
                h,
                body,
            );
        } else {
            match cur {
                Some(c) => {
                    lemma_split_cont_append(
                        lines,
                        xs_len,
                        i + 1,
                        done,
                        Some((c.0, c.1.push(lines[i]))),
                        h,
                        body,
                    );
                },
                None => {
                    lemma_split_cont_append(lines, xs_len, i + 1, done, None, h, body);
                },
            }
        }
    }
}

/// Appending one well-formed section to any lines adds exactly one section
/// to the split, and disturbs none of the existing ones.
pub proof fn lemma_split_append(xs: Seq<Seq<char>>, h: Seq<char>, body: Seq<Seq<char>>)
    requires
        is_header(h),
        forall|k: int| 0 <= k < body.len() ==> !is_header(#[trigger] body[k]),
    ensures
        split_spec(xs + (seq![h] + body)) == split_spec(xs) + seq![(h, body)],
{
    let lines = xs + (seq![h] + body);
    assert(lines.subrange(xs.len() as int, lines.len() as int) =~~= seq![h] + body);
    assert(lines.subrange(0, xs.len() as int) =~~= xs);
    lemma_split_cont_append(
        lines,
        xs.len() as int,
        0,
        Seq::empty(),
        None,
        h,
        body,
    );
}

// ---------------------------------------------------------------------------
// Append then list.
// ---------------------------------------------------------------------------

/// Append-then-list law: a file holding exactly one freshly appended
/// capture lists exactly that capture's fields.  The file's text is the
/// serialized section `header + body`; splitting it into lines, then into
/// sections, and decoding yields the one encoded key.
pub proof fn lemma_append_then_list(
    ts: Seq<char>,
    topic: Seq<char>,
    subject: Seq<char>,
    body: Seq<Seq<char>>,
)
    requires
        field_ok(ts),
        field_ok(topic),
        delim_free(subject),
        no_newline(ts),
        no_newline(topic),
        no_newline(subject),
        forall|k: int| 0 <= k < body.len() ==> clean_line(#[trigger] body[k]),
        forall|k: int| 0 <= k < body.len() ==> !is_header(#[trigger] body[k]),
    ensures
        ({
            let h = header_text(ts, topic, subject);
            let key: KeyModel = (ts, topic, subject);
            keys_of_lines(split_lines_spec(lines_text(seq![h] + body))) == seq![key]
        }),
{
    let h = header_text(ts, topic, subject);
    lemma_header_is_header(ts, topic, subject);
    lemma_header_line_shape(ts, topic, subject);
    assert(clean_line(h)) by {
        assert(h[h.len() - 1] == '>');
    }
    let ls = seq![h] + body;
    assert forall|p: int| 0 <= p < ls.len() implies clean_line(#[trigger] ls[p]) by {
        if p > 0 {
            assert(ls[p] == body[p - 1]);
        }
    }
    lemma_split_join_lines(ls);
    let sec: SectionModel = (h, body);
    let ss = seq![sec];
    assert(wf_sections(ss)) by {
        assert(ss[0] == sec);
        assert(wf_section(sec));
    }
    lemma_split_of_flatten(ss);
    assert(flatten_sections(ss) =~~= ls) by {
        assert(ss.drop_first() =~~= Seq::<SectionModel>::empty());
        assert(flatten_sections(ss) == sec_lines(sec) + flatten_sections(
            Seq::<SectionModel>::empty(),
        ));
    }
    assert(split_spec(ls) == ss);
    lemma_header_round_trip(ts, topic, subject);
    let key: KeyModel = (ts, topic, subject);
    assert(keys_of_sections(ss) =~~= seq![key]) by {
        assert(ss.drop_first() =~~= Seq::<SectionModel>::empty());
        assert(keys_of_sections(Seq::<SectionModel>::empty()) == Seq::<KeyModel>::empty());
    }
}

// ---------------------------------------------------------------------------
// Append then read back.
// ---------------------------------------------------------------------------

/// Lookup-after-append law: appending a capture to a file none of whose
/// sections carries the same header, then reading it back by the exact
/// re-encoded header, returns a content section whose header is that
/// header and whose body is exactly the appended body.
pub proof fn lemma_read_after_append(
    ss: Seq<SectionModel>,
    ts: Seq<char>,
    topic: Seq<char>,
    subject: Seq<char>,
    body: Seq<Seq<char>>,
)
    requires
        wf_sections(ss),
        forall|p: int| 0 <= p < ss.len() ==> (#[trigger] ss[p]).0 != header_text(
            ts,
            topic,
            subject,
        ),
        forall|k: int| 0 <= k < body.len() ==> !is_header(#[trigger] body[k]),
    ensures
        ({
            let h = header_text(ts, topic, subject);
            let sec: SectionModel = (h, body);
            let lines = flatten_sections(ss) + (seq![h] + body);
            partition_content(split_spec(lines), h) == sec
        }),
{
    let h = header_text(ts, topic, subject);
    lemma_header_is_header(ts, topic, subject);
    let lines = flatten_sections(ss) + (seq![h] + body);
    lemma_split_append(flatten_sections(ss), h, body);
    lemma_split_of_flatten(ss);
    let sec: SectionModel = (h, body);
    let parts = ss + seq![sec];
    assert(split_spec(lines) == parts);
    assert(parts[ss.len() as int] == sec);
    assert forall|p: int| 0 <= p < ss.len() implies (#[trigger] parts[p]).0 != h by {
        assert(parts[p] == ss[p]);
    }
    lemma_match_found(parts, h, ss.len() as int);
    assert(has_match(parts, h));
    assert(parts.subrange(0, ss.len() as int) =~~= ss);
    lemma_merged_body_none(ss, h);
    assert(parts =~~= ss.push(sec));
    lemma_merged_body_snoc(ss, sec, h);
    assert(merged_body(parts, h) =~~= body);
}

// ---------------------------------------------------------------------------
// Deleting removes exactly the matching section.
// ---------------------------------------------------------------------------

pub proof fn lemma_nonmatching_concat(a: Seq<SectionModel>, b: Seq<SectionModel>, t: Seq<char>)
    ensures
        nonmatching(a + b, t) == nonmatching(a, t) + nonmatching(b, t),
    decreases a.len(),
{
    if a.len() == 0 {
        assert(a + b =~~= b);
        assert(nonmatching(a, t) + nonmatching(b, t) =~~= nonmatching(b, t));
    } else {
        assert((a + b)[0] == a[0]);
        assert((a + b).drop_first() =~~= a.drop_first() + b);
        lemma_nonmatching_concat(a.drop_first(), b, t);
        if a[0].0 == t {
        } else {
            assert(nonmatching(a + b, t) == seq![a[0]] + (nonmatching(a.drop_first(), t)
                + nonmatching(b, t)));
            assert(nonmatching(a, t) == seq![a[0]] + nonmatching(a.drop_first(), t));
            assert(seq![a[0]] + (nonmatching(a.drop_first(), t) + nonmatching(b, t)) =~~= (seq![
                a[0],
            ] + nonmatching(a.drop_first(), t)) + nonmatching(b, t));
        }
    }
}

/// With no matching section, filtering changes nothing.
pub proof fn lemma_nonmatching_all(ss: Seq<SectionModel>, t: Seq<char>)
    requires
        forall|p: int| 0 <= p < ss.len() ==> (#[trigger] ss[p]).0 != t,
    ensures
        nonmatching(ss, t) == ss,
    decreases ss.len(),
{
    if ss.len() > 0 {
        assert forall|p: int| 0 <= p < ss.drop_first().len() implies (#[trigger] ss.drop_first()[p]).0
            != t by {
            assert(ss.drop_first()[p] == ss[p + 1]);
        }
        lemma_nonmatching_all(ss.drop_first(), t);
        assert(nonmatching(ss, t) == seq![ss[0]] + ss.drop_first());
        assert(seq![ss[0]] + ss.drop_first() =~~= ss);
    }
}

/// What the delete operation keeps — the sections before the match and the
/// non-matching sections after it — is exactly every section whose header
/// differs from the target, in order.
pub proof fn lemma_partition_nonmatching(ss: Seq<SectionModel>, t: Seq<char>)
    ensures
        partition_before(ss, t) + partition_after(ss, t) == nonmatching(ss, t),
{
    lemma_match_index_bounds(ss, t);
    let mi = match_index(ss, t);
    if !has_match(ss, t) {
        lemma_nonmatching_all(ss, t);
        assert(ss + Seq::<SectionModel>::empty() =~~= ss);
    } else {
        let front = ss.subrange(0, mi);
        let back = ss.subrange(mi + 1, ss.len() as int);
        assert(ss =~~= front + (seq![ss[mi]] + back));
        lemma_nonmatching_concat(front, seq![ss[mi]] + back, t);
        lemma_nonmatching_concat(seq![ss[mi]], back, t);
        assert(nonmatching(ss, t) == nonmatching(front, t) + (nonmatching(seq![ss[mi]], t)
            + nonmatching(back, t)));
        assert forall|p: int| 0 <= p < front.len() implies (#[trigger] front[p]).0 != t by {
            assert(front[p] == ss[p]);
        }
        lemma_nonmatching_all(front, t);
        assert(nonmatching(seq![ss[mi]], t) == Seq::<SectionModel>::empty()) by {
            let one = seq![ss[mi]];
            assert(one.len() == 1);
            assert(one[0] == ss[mi]);
            assert(one[0].0 == t);
            assert(one.drop_first() =~~= Seq::<SectionModel>::empty());
            assert(nonmatching(one, t) == nonmatching(one.drop_first(), t));
            assert(nonmatching(Seq::<SectionModel>::empty(), t) == Seq::<SectionModel>::empty());
        }
        assert(front + (Seq::<SectionModel>::empty() + nonmatching(back, t)) =~~= front
            + nonmatching(back, t));
        assert(partition_before(ss, t) + partition_after(ss, t) =~~= front + nonmatching(back, t));
    }
}

/// A section all of whose lines serialization will reproduce.
pub open spec fn clean_section(sec: SectionModel) -> bool {
    &&& clean_line(sec.0)
    &&& forall|k: int| 0 <= k < sec.1.len() ==> clean_line(#[trigger] sec.1[k])
}

pub open spec fn clean_sections(ss: Seq<SectionModel>) -> bool {
    forall|p: int| 0 <= p < ss.len() ==> clean_section(#[trigger] ss[p])
}

/// Filtering sections keeps them well-formed and clean.
pub proof fn lemma_nonmatching_preserves(ss: Seq<SectionModel>, t: Seq<char>)
    requires
        wf_sections(ss),
        clean_sections(ss),
    ensures
        wf_sections(nonmatching(ss, t)),
        clean_sections(nonmatching(ss, t)),
    decreases ss.len(),
{
    if ss.len() > 0 {
        assert forall|p: int| 0 <= p < ss.drop_first().len() implies wf_section(
            #[trigger] ss.drop_first()[p],
        ) && clean_section(ss.drop_first()[p]) by {
            assert(ss.drop_first()[p] == ss[p + 1]);
        }
        lemma_nonmatching_preserves(ss.drop_first(), t);
        if ss[0].0 == t {
        } else {
            let r = seq![ss[0]] + nonmatching(ss.drop_first(), t);
            assert forall|p: int| 0 <= p < r.len() implies wf_section(#[trigger] r[p])
                && clean_section(r[p]) by {
                if p == 0 {
                    assert(r[0] == ss[0]);
                } else {
                    assert(r[p] == nonmatching(ss.drop_first(), t)[p - 1]);
                }
            }
        }
    }
}

/// Every line that clean sections serialize to is clean.
pub proof fn lemma_flatten_clean(ss: Seq<SectionModel>)
    requires
        clean_sections(ss),
    ensures
        forall|k: int|
            0 <= k < flatten_sections(ss).len() ==> clean_line(#[trigger] flatten_sections(ss)[k]),
    decreases ss.len(),
{
    if ss.len() > 0 {
        assert forall|p: int| 0 <= p < ss.drop_first().len() implies clean_section(
            #[trigger] ss.drop_first()[p],
        ) by {
            assert(ss.drop_first()[p] == ss[p + 1]);
        }
        lemma_flatten_clean(ss.drop_first());
        assert(clean_section(ss[0]));
        let fl = flatten_sections(ss);
        assert forall|k: int| 0 <= k < fl.len() implies clean_line(#[trigger] fl[k]) by {
            assert(fl == sec_lines(ss[0]) + flatten_sections(ss.drop_first()));
            if k == 0 {
                assert(fl[0] == ss[0].0);
            } else if k < 1 + ss[0].1.len() {
                assert(fl[k] == ss[0].1[k - 1]);
            } else {
                assert(fl[k] == flatten_sections(ss.drop_first())[k - 1 - ss[0].1.len()]);
            }
        }
    }
}

/// Delete law: the rewritten file re-splits to exactly the sections whose
/// header differs from the deleted capture's, byte-identical and in order;
/// the matched section is gone without trace.
pub proof fn lemma_delete_exact(ss: Seq<SectionModel>, t: Seq<char>)
    requires
        wf_sections(ss),
        clean_sections(ss),
    ensures
        partition_before(ss, t) + partition_after(ss, t) == nonmatching(ss, t),
        split_spec(split_lines_spec(sections_text(nonmatching(ss, t)))) == nonmatching(ss, t),
{
    lemma_partition_nonmatching(ss, t);
    let kept = nonmatching(ss, t);
    lemma_nonmatching_preserves(ss, t);
    lemma_flatten_clean(kept);
    lemma_split_join_lines(flatten_sections(kept));
    lemma_split_of_flatten(kept);
}

pub proof fn lemma_merged_body_concat(a: Seq<SectionModel>, b: Seq<SectionModel>, t: Seq<char>)
    ensures
        merged_body(a + b, t) == merged_body(a, t) + merged_body(b, t),
    decreases a.len(),
{
    if a.len() == 0 {
        assert(a + b =~~= b);
        assert(merged_body(a, t) + merged_body(b, t) =~~= merged_body(b, t));
    } else {
        assert((a + b)[0] == a[0]);
        assert((a + b).drop_first() =~~= a.drop_first() + b);
        lemma_merged_body_concat(a.drop_first(), b, t);
        if a[0].0 == t {
            assert(merged_body(a + b, t) == a[0].1 + (merged_body(a.drop_first(), t)
                + merged_body(b, t)));
            assert(merged_body(a, t) == a[0].1 + merged_body(a.drop_first(), t));
            assert(a[0].1 + (merged_body(a.drop_first(), t) + merged_body(b, t)) =~~= (a[0].1
                + merged_body(a.drop_first(), t)) + merged_body(b, t));
        }
    }
}

/// Read-context identity: when exactly one section carries the matched
/// header, the partition reassembles the section list exactly — the
/// sections before, the content section, the sections after — and so
/// reserializing the three parts in order reproduces the file's text byte
/// for byte.
pub proof fn lemma_read_context_identity(ss: Seq<SectionModel>, t: Seq<char>)
    requires
        has_match(ss, t),
        forall|p: int|
            0 <= p < ss.len() && p != match_index(ss, t) ==> (#[trigger] ss[p]).0 != t,
    ensures
        partition_before(ss, t) + seq![partition_content(ss, t)] + partition_after(ss, t) == ss,
        sections_text(partition_before(ss, t)) + sections_text(seq![partition_content(ss, t)])
            + sections_text(partition_after(ss, t)) == sections_text(ss),
{
    lemma_match_index_bounds(ss, t);
    let mi = match_index(ss, t);
    let front = ss.subrange(0, mi);
    let back = ss.subrange(mi + 1, ss.len() as int);
    let one = seq![ss[mi]];
    assert(ss =~~= front + (one + back));
    lemma_merged_body_concat(front, one + back, t);
    lemma_merged_body_concat(one, back, t);
    assert forall|p: int| 0 <= p < front.len() implies (#[trigger] front[p]).0 != t by {
        assert(front[p] == ss[p]);
    }
    lemma_merged_body_none(front, t);
    assert forall|p: int| 0 <= p < back.len() implies (#[trigger] back[p]).0 != t by {
        assert(back[p] == ss[mi + 1 + p]);
    }
    lemma_merged_body_none(back, t);
    assert(merged_body(one, t) == ss[mi].1) by {
        assert(one[0] == ss[mi]);
        assert(one.drop_first() =~~= Seq::<SectionModel>::empty());
        assert(merged_body(Seq::<SectionModel>::empty(), t) == Seq::<Seq<char>>::empty());
        assert(ss[mi].1 + Seq::<Seq<char>>::empty() =~~= ss[mi].1);
    }
    assert(merged_body(ss, t) == ss[mi].1) by {
        assert(merged_body(ss, t) == merged_body(front, t) + (merged_body(one, t) + merged_body(
            back,
            t,
        )));
        assert(Seq::<Seq<char>>::empty() + (ss[mi].1 + Seq::<Seq<char>>::empty()) =~~= ss[mi].1);
    }
    assert(partition_content(ss, t) == ss[mi]);
    lemma_nonmatching_all(back, t);
    assert(partition_before(ss, t) + seq![partition_content(ss, t)] + partition_after(ss, t)
        =~~= ss);
    lemma_sections_text_concat(front + seq![ss[mi]], back);
    lemma_sections_text_concat(front, seq![ss[mi]]);
    assert(front + seq![ss[mi]] + back =~~= ss);
}

// ---------------------------------------------------------------------------
// Split/reassemble identity at the byte level.
// ---------------------------------------------------------------------------

/// Reassembling the splitter's output reproduces the file's text exactly,
/// for clean text with no content before the first header line.
pub proof fn lemma_content_round_trip(s: Seq<char>)
    requires
        clean_text(s),
        split_lines_spec(s).len() > 0 ==> is_header(split_lines_spec(s)[0]),
    ensures
        sections_text(split_spec(split_lines_spec(s))) == s,
{
    let ls = split_lines_spec(s);
    lemma_join_split_lines(s);
    lemma_split_reassemble_identity(ls);
}

} // verus!
