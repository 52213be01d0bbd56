//! Header codec: the one-line textual encoding of a capture's identity.
//!
//! A header line is the envelope `<!--yoink` ... `-->` around four
//! `::::`-delimited fields: a fixed tag plus timestamp, topic and subject.
//! `encode_header` must be exactly reproducible, because the store re-locates
//! a section later by string equality against a re-encoded header.
//! `decode_header` is deliberately lenient: a line that does not match the
//! envelope, or has too few fields, is simply not a header (scans over
//! arbitrary file content must not fail).

use vstd::prelude::*;
use vstd::string::*;

verus! {

// ---------------------------------------------------------------------------
// The fixed pieces of the envelope, as concrete character sequences.
// ---------------------------------------------------------------------------

/// The field delimiter `::::`.
pub open spec fn delim() -> Seq<char> {
    seq![':', ':', ':', ':']
}

/// The opening marker of a section header, `<!--yoink`.
pub open spec fn open_mark() -> Seq<char> {
    seq!['<', '!', '-', '-', 'y', 'o', 'i', 'n', 'k']
}

/// The closing marker, `-->`.
pub open spec fn close_mark() -> Seq<char> {
    seq!['-', '-', '>']
}

/// The four characters `<!--` that the decoder checks at the front of a line.
pub open spec fn scan_mark() -> Seq<char> {
    seq!['<', '!', '-', '-']
}

/// The fixed tag `yoink` that stands as the first delimited field.
pub open spec fn tag() -> Seq<char> {
    seq!['y', 'o', 'i', 'n', 'k']
}

// ---------------------------------------------------------------------------
// Prefix / suffix predicates over character sequences.
// ---------------------------------------------------------------------------

pub open spec fn seq_starts_with(s: Seq<char>, p: Seq<char>) -> bool {
    p.len() <= s.len() && s.subrange(0, p.len() as int) == p
}

pub open spec fn seq_ends_with(s: Seq<char>, p: Seq<char>) -> bool {
    p.len() <= s.len() && s.subrange(s.len() - p.len(), s.len() as int) == p
}

/// A line is a section header exactly when it starts with `<!--yoink` and
/// ends with `-->`.
pub open spec fn is_header(line: Seq<char>) -> bool {
    seq_starts_with(line, open_mark()) && seq_ends_with(line, close_mark())
}

// ---------------------------------------------------------------------------
// Splitting on the `::::` delimiter, leftmost match first.
// ---------------------------------------------------------------------------

/// Four colons stand at position `i` of `s`.
pub open spec fn delim_at(s: Seq<char>, i: int) -> bool {
    &&& 0 <= i
    &&& i + 4 <= s.len()
    &&& s[i] == ':'
    &&& s[i + 1] == ':'
    &&& s[i + 2] == ':'
    &&& s[i + 3] == ':'
}

/// `s` contains no `::::` anywhere.
pub open spec fn delim_free(s: Seq<char>) -> bool {
    forall|i: int| !delim_at(s, i)
}

/// A field may stand before a delimiter without disturbing the split:
/// it contains no `::::` and does not end with a colon (a trailing colon
/// would fuse with the following delimiter into an earlier match).
pub open spec fn field_ok(f: Seq<char>) -> bool {
    &&& delim_free(f)
    &&& (f.len() > 0 ==> f[f.len() - 1] != ':')
}

/// Position of the leftmost `::::` at or after `i`, or `-1` if there is none.
pub open spec fn first_delim_from(s: Seq<char>, i: int) -> int
    decreases s.len() - i when 0 <= i
{
    if i + 4 > s.len() {
        -1
    } else if delim_at(s, i) {
        i
    } else {
        first_delim_from(s, i + 1)
    }
}

/// The parts of `s.subrange(i, s.len())` between successive leftmost `::::`
/// matches, exactly as `str::split("::::")` produces them.
pub open spec fn split_from(s: Seq<char>, i: int) -> Seq<Seq<char>>
    decreases s.len() - i when 0 <= i <= s.len()
{
    let j = first_delim_from(s, i);
    if j < 0 {
        seq![s.subrange(i, s.len() as int)]
    } else if i <= j && j + 4 <= s.len() {
        seq![s.subrange(i, j)] + split_from(s, j + 4)
    } else {
        // unreachable: the leftmost match lies in [i, s.len() - 4]
        Seq::empty()
    }
}

pub open spec fn split_delim(s: Seq<char>) -> Seq<Seq<char>> {
    split_from(s, 0)
}

// ---------------------------------------------------------------------------
// The header text and its decoding.
// ---------------------------------------------------------------------------

/// The exact text of the header line for the given fields:
/// `<!--yoink::::{timestamp}::::{topic}::::{subject}-->`.
pub open spec fn header_text(ts: Seq<char>, topic: Seq<char>, subject: Seq<char>) -> Seq<char> {
    open_mark() + delim() + ts + delim() + topic + delim() + subject + close_mark()
}

/// What decoding recognizes.  A line is decodable when it is longer than 16
/// characters, starts with `<!--` and ends with `-->`; the envelope is then
/// stripped, the rest split on `::::`, the fixed tag dropped, and at least
/// three fields must remain.  Anything else is not a header.
pub open spec fn decode_spec(line: Seq<char>) -> Option<(Seq<char>, Seq<char>, Seq<char>)> {
    if line.len() > 16 && seq_starts_with(line, scan_mark()) && seq_ends_with(line, close_mark()) {
        let parts = split_delim(line.subrange(4, line.len() - 3));
        if parts.len() >= 4 {
            Some((parts[1], parts[2], parts[3]))
        } else {
            None
        }
    } else {
        None
    }
}

// ---------------------------------------------------------------------------
// The identity key of a capture.
// ---------------------------------------------------------------------------

/// The mathematical shape of a capture's identity: timestamp, topic and
/// subject as character sequences.
pub type KeyModel = (Seq<char>, Seq<char>, Seq<char>);

/// The materialized identity of a capture: the three free fields of its
/// header line.  Two captures are the same record exactly when all three
/// fields are equal.
#[derive(Clone, Debug)]
pub struct CaptureKey {
    pub timestamp: String,
    pub topic: String,
    pub subject: String,
}

impl View for CaptureKey {
    type V = (Seq<char>, Seq<char>, Seq<char>);

    open spec fn view(&self) -> (Seq<char>, Seq<char>, Seq<char>) {
        (self.timestamp@, self.topic@, self.subject@)
    }
}

impl DeepView for CaptureKey {
    type V = (Seq<char>, Seq<char>, Seq<char>);

    open spec fn deep_view(&self) -> (Seq<char>, Seq<char>, Seq<char>) {
        self.view()
    }
}

impl CaptureKey {
    /// The header fields as character sequences.
    pub open spec fn model(self) -> (Seq<char>, Seq<char>, Seq<char>) {
        (self.timestamp@, self.topic@, self.subject@)
    }

    pub fn new(timestamp: String, topic: String, subject: String) -> (r: CaptureKey)
        ensures
            r.timestamp == timestamp,
            r.topic == topic,
            r.subject == subject,
    {
        CaptureKey { timestamp, topic, subject }
    }
}

impl PartialEq for CaptureKey {
    fn eq(&self, other: &CaptureKey) -> (r: bool) {
        self.timestamp == other.timestamp && self.topic == other.topic
            && self.subject == other.subject
    }
}

impl Eq for CaptureKey {}

impl vstd::std_specs::cmp::PartialEqSpecImpl for CaptureKey {
    open spec fn obeys_eq_spec() -> bool {
        true
    }

    open spec fn eq_spec(&self, other: &CaptureKey) -> bool {
        self.timestamp@ == other.timestamp@ && self.topic@ == other.topic@
            && self.subject@ == other.subject@
    }
}

// ---------------------------------------------------------------------------
// Executable string helpers.
// ---------------------------------------------------------------------------

/// Whether `s` starts with `p`, by characters.
pub fn str_starts_with(s: &str, p: &str) -> (r: bool)
    ensures
        r == seq_starts_with(s@, p@),
{
    let n = p.unicode_len();
    if n > s.unicode_len() {
        return false;
    }
    let mut i: usize = 0;
    while i < n
        invariant
            0 <= i <= n,
            n == p@.len(),
            n <= s@.len(),
            forall|k: int| 0 <= k < i ==> s@[k] == p@[k],
        decreases n - i,
    {
        if s.get_char(i) != p.get_char(i) {
            assert(s@.subrange(0, n as int)[i as int] != p@[i as int]);
            return false;
        }
        i += 1;
    }
    assert(s@.subrange(0, n as int) =~= p@);
    true
}

/// Whether `s` ends with `p`, by characters.
pub fn str_ends_with(s: &str, p: &str) -> (r: bool)
    ensures
        r == seq_ends_with(s@, p@),
{
    let n = p.unicode_len();
    let m = s.unicode_len();
    if n > m {
        return false;
    }
    let off = m - n;
    let mut i: usize = 0;
    while i < n
        invariant
            0 <= i <= n,
            n == p@.len(),
            m == s@.len(),
            off == m - n,
            forall|k: int| 0 <= k < i ==> s@[off + k] == p@[k],
        decreases n - i,
    {
        if s.get_char(off + i) != p.get_char(i) {
            assert(s@.subrange(off as int, m as int)[i as int] != p@[i as int]);
            return false;
        }
        i += 1;
    }
    assert(s@.subrange(off as int, m as int) =~= p@);
    true
}

/// Exact character-for-character equality of two string slices.
pub fn str_eq(a: &str, b: &str) -> (r: bool)
    ensures
        r == (a@ == b@),
{
    let n = a.unicode_len();
    if n != b.unicode_len() {
        return false;
    }
    let mut i: usize = 0;
    while i < n
        invariant
            0 <= i <= n,
            n == a@.len(),
            n == b@.len(),
            forall|k: int| 0 <= k < i ==> a@[k] == b@[k],
        decreases n - i,
    {
        if a.get_char(i) != b.get_char(i) {
            return false;
        }
        i += 1;
    }
    assert(a@ =~= b@);
    true
}

/// Whether the line is a section header: starts with `<!--yoink`, ends `-->`.
pub fn is_header_line(line: &str) -> (r: bool)
    ensures
        r == is_header(line@),
{
    proof {
        reveal_strlit("<!--yoink");
        reveal_strlit("-->");
        assert("<!--yoink"@ =~= open_mark());
        assert("-->"@ =~= close_mark());
    }
    str_starts_with(line, "<!--yoink") && str_ends_with(line, "-->")
}

/// The leftmost `::::` at or after `from`, if any.
pub fn find_delim_from(s: &str, from: usize) -> (r: Option<usize>)
    requires
        from <= s@.len(),
    ensures
        match r {
            Some(j) => from <= j && delim_at(s@, j as int) && j == first_delim_from(
                s@,
                from as int,
            ),
            None => first_delim_from(s@, from as int) == -1,
        },
{
    let n = s.unicode_len();
    let mut i: usize = from;
    loop
        invariant
            from <= i <= n,
            n == s@.len(),
            first_delim_from(s@, from as int) == first_delim_from(s@, i as int),
        decreases n - i,
    {
        if n - i < 4 {
            return None;
        }
        if s.get_char(i) == ':' && s.get_char(i + 1) == ':' && s.get_char(i + 2) == ':' && s.get_char(
            i + 3,
        ) == ':' {
            assert(delim_at(s@, i as int));
            return Some(i);
        }
        assert(!delim_at(s@, i as int));
        i += 1;
    }
}

/// Split `s` on `::::`, leftmost match first, exactly as `str::split` does.
pub fn split_delim_parts(s: &str) -> (parts: Vec<String>)
    ensures
        parts.deep_view() == split_delim(s@),
{
    let n = s.unicode_len();
    let mut parts: Vec<String> = Vec::new();
    let mut start: usize = 0;
    loop
        invariant
            0 <= start <= n,
            n == s@.len(),
            split_delim(s@) == parts.deep_view() + split_from(s@, start as int),
        decreases n - start,
    {
        let ghost prev: Seq<Seq<char>> = parts.deep_view();
        match find_delim_from(s, start) {
            None => {
                let last = s.substring_char(start, n).to_owned();
                parts.push(last);
                proof {
                    assert(split_from(s@, start as int) == seq![s@.subrange(
                        start as int,
                        n as int,
                    )]);
                    assert(parts.deep_view() =~~= split_delim(s@));
                }
                return parts;
            },
            Some(j) => {
                let part = s.substring_char(start, j).to_owned();
                parts.push(part);
                proof {
                    assert(split_from(s@, start as int) == seq![s@.subrange(
                        start as int,
                        j as int,
                    )] + split_from(s@, j + 4));
                    assert(parts.deep_view() =~~= prev + seq![s@.subrange(
                        start as int,
                        j as int,
                    )]);
                    assert(parts.deep_view() + split_from(s@, j + 4) =~~= split_delim(s@));
                }
                start = j + 4;
            },
        }
    }
}

// ---------------------------------------------------------------------------
// Encode and decode.
// ---------------------------------------------------------------------------

/// Builds the header line `<!--yoink::::{ts}::::{topic}::::{subject}-->`.
/// Deterministic concatenation, so that string equality re-locates the
/// section later.
pub fn encode_header(timestamp: &str, topic: &str, subject: &str) -> (r: String)
    ensures
        r@ == header_text(timestamp@, topic@, subject@),
{
    proof {
        reveal_strlit("<!--yoink");
        reveal_strlit("::::");
        reveal_strlit("-->");
        assert("<!--yoink"@ =~= open_mark());
        assert("::::"@ =~= delim());
        assert("-->"@ =~= close_mark());
    }
    let mut s = "<!--yoink".to_owned();
    s.append("::::");
    s.append(timestamp);
    s.append("::::");
    s.append(topic);
    s.append("::::");
    s.append(subject);
    s.append("-->");
    proof {
        assert(s@ =~= header_text(timestamp@, topic@, subject@));
    }
    s
}

/// Decodes a line into its header fields, or `None` when the line is not a
/// recognizable header: too short, envelope missing, or fewer than three
/// fields after the tag.  Never fails on arbitrary content.
pub fn decode_header(line: &str) -> (r: Option<CaptureKey>)
    ensures
        match r {
            Some(k) => decode_spec(line@) == Some(k.model()),
            None => decode_spec(line@) is None,
        },
{
    proof {
        reveal_strlit("<!--");
        reveal_strlit("-->");
        assert("<!--"@ =~= scan_mark());
        assert("-->"@ =~= close_mark());
    }
    let n = line.unicode_len();
    if n <= 16 {
        return None;
    }
    if !str_starts_with(line, "<!--") {
        return None;
    }
    if !str_ends_with(line, "-->") {
        return None;
    }
    let interior = line.substring_char(4, n - 3);
    let parts = split_delim_parts(interior);
    if parts.len() >= 4 {
        let key = CaptureKey {
            timestamp: parts[1].clone(),
            topic: parts[2].clone(),
            subject: parts[3].clone(),
        };
        assert(parts.deep_view()[1] == key.timestamp@);
        assert(parts.deep_view()[2] == key.topic@);
        assert(parts.deep_view()[3] == key.subject@);
        Some(key)
    } else {
        None
    }
}

// ---------------------------------------------------------------------------
// Laws of the delimiter split.
// ---------------------------------------------------------------------------

/// `first_delim_from` returns the leftmost delimiter position at or after
/// `i`, and `-1` exactly when there is none.
pub proof fn lemma_first_delim_from(s: Seq<char>, i: int)
    requires
        0 <= i,
    ensures
        first_delim_from(s, i) == -1 ==> forall|k: int| i <= k ==> !delim_at(s, k),
        first_delim_from(s, i) != -1 ==> {
            let j = first_delim_from(s, i);
            &&& i <= j
            &&& delim_at(s, j)
            &&& forall|k: int| i <= k < j ==> !delim_at(s, k)
        },
    decreases s.len() - i,
{
    if i + 4 > s.len() {
    } else if delim_at(s, i) {
    } else {
        lemma_first_delim_from(s, i + 1);
        let j = first_delim_from(s, i + 1);
        if j == -1 {
            assert forall|k: int| i <= k implies !delim_at(s, k) by {
                if k > i {
                    assert(i + 1 <= k);
                }
            }
        } else {
            assert forall|k: int| i <= k < j implies !delim_at(s, k) by {
                if k > i {
                    assert(i + 1 <= k < j);
                }
            }
        }
    }
}

/// Conversely: a delimiter at `j` with none in `[i, j)` is the leftmost one.
pub proof fn lemma_first_delim_is(s: Seq<char>, i: int, j: int)
    requires
        0 <= i <= j,
        delim_at(s, j),
        forall|k: int| i <= k < j ==> !delim_at(s, k),
    ensures
        first_delim_from(s, i) == j,
    decreases j - i,
{
    if i == j {
    } else {
        assert(!delim_at(s, i));
        lemma_first_delim_is(s, i + 1, j);
    }
}

/// Searching in a suffix finds the same delimiter, shifted.
pub proof fn lemma_first_delim_shift(s: Seq<char>, i: int, m: int)
    requires
        0 <= i <= s.len(),
        0 <= m,
    ensures
        ({
            let t = s.subrange(i, s.len() as int);
            let f = first_delim_from(t, m);
            first_delim_from(s, i + m) == if f == -1 {
                -1int
            } else {
                i + f
            }
        }),
    decreases s.len() - i - m,
{
    let t = s.subrange(i, s.len() as int);
    if m + 4 > t.len() {
    } else if delim_at(t, m) {
        assert(delim_at(s, i + m));
    } else {
        assert(!delim_at(s, i + m)) by {
            if delim_at(s, i + m) {
                assert(t[m] == s[i + m]);
                assert(t[m + 1] == s[i + m + 1]);
                assert(t[m + 2] == s[i + m + 2]);
                assert(t[m + 3] == s[i + m + 3]);
                assert(delim_at(t, m));
            }
        }
        lemma_first_delim_shift(s, i, m + 1);
    }
}

/// Splitting from position `i` is splitting the suffix that starts there.
pub proof fn lemma_split_from_suffix(s: Seq<char>, i: int)
    requires
        0 <= i <= s.len(),
    ensures
        split_from(s, i) == split_delim(s.subrange(i, s.len() as int)),
    decreases s.len() - i,
{
    let t = s.subrange(i, s.len() as int);
    lemma_first_delim_shift(s, i, 0);
    let f = first_delim_from(t, 0);
    if f == -1 {
        assert(t.subrange(0, t.len() as int) =~= t);
        assert(s.subrange(i, s.len() as int) =~= t);
    } else {
        lemma_first_delim_from(t, 0);
        let j = i + f;
        assert(split_from(s, i) == seq![s.subrange(i, j)] + split_from(s, j + 4));
        assert(split_delim(t) == seq![t.subrange(0, f)] + split_from(t, f + 4));
        assert(s.subrange(i, j) =~= t.subrange(0, f));
        lemma_split_from_suffix(s, j + 4);
        lemma_split_from_suffix(t, f + 4);
        assert(s.subrange(j + 4, s.len() as int) =~= t.subrange(f + 4, t.len() as int));
    }
}

/// Joining parts with `::::` between them.
pub open spec fn join_delim(parts: Seq<Seq<char>>) -> Seq<char>
    decreases parts.len(),
{
    if parts.len() == 0 {
        Seq::empty()
    } else if parts.len() == 1 {
        parts[0]
    } else {
        parts[0] + delim() + join_delim(parts.drop_first())
    }
}

/// Splitting undoes joining: parts that hold no `::::`, and (except the last)
/// do not end with a colon, come back unchanged.
pub proof fn lemma_split_join(parts: Seq<Seq<char>>)
    requires
        parts.len() >= 1,
        forall|p: int| 0 <= p < parts.len() ==> delim_free(#[trigger] parts[p]),
        forall|p: int| 0 <= p < parts.len() - 1 ==> field_ok(#[trigger] parts[p]),
    ensures
        split_delim(join_delim(parts)) == parts,
    decreases parts.len(),
{
    let s = join_delim(parts);
    if parts.len() == 1 {
        assert(s == parts[0]);
        lemma_first_delim_from(s, 0);
        if first_delim_from(s, 0) != -1 {
            assert(delim_at(s, first_delim_from(s, 0)));
            assert(false);
        }
        assert(s.subrange(0, s.len() as int) =~= parts[0]);
        assert(split_delim(s) =~~= parts);
    } else {
        let f = parts[0];
        let rest = join_delim(parts.drop_first());
        assert(s == f + delim() + rest);
        let m = f.len() as int;
        assert(delim_at(s, m)) by {
            assert(s[m] == delim()[0]);
            assert(s[m + 1] == delim()[1]);
            assert(s[m + 2] == delim()[2]);
            assert(s[m + 3] == delim()[3]);
        }
        assert forall|k: int| 0 <= k < m implies !delim_at(s, k) by {
            if delim_at(s, k) {
                if k + 4 <= m {
                    assert(f[k] == s[k]);
                    assert(f[k + 1] == s[k + 1]);
                    assert(f[k + 2] == s[k + 2]);
                    assert(f[k + 3] == s[k + 3]);
                    assert(delim_at(f, k));
                    assert(false);
                } else {
                    assert(k <= m - 1 < k + 4);
                    assert(s[m - 1] == ':');
                    assert(s[m - 1] == f[m - 1]);
                    assert(false);
                }
            }
        }
        lemma_first_delim_is(s, 0, m);
        assert(split_delim(s) == seq![s.subrange(0, m)] + split_from(s, m + 4));
        assert(s.subrange(0, m) =~= f);
        lemma_split_from_suffix(s, m + 4);
        assert(s.subrange(m + 4, s.len() as int) =~= rest);
        assert forall|p: int| 0 <= p < parts.drop_first().len() implies delim_free(
            #[trigger] parts.drop_first()[p],
        ) by {
            assert(parts.drop_first()[p] == parts[p + 1]);
        }
        assert forall|p: int| 0 <= p < parts.drop_first().len() - 1 implies field_ok(
            #[trigger] parts.drop_first()[p],
        ) by {
            assert(parts.drop_first()[p] == parts[p + 1]);
        }
        lemma_split_join(parts.drop_first());
        assert(split_delim(rest) == parts.drop_first());
        assert(split_delim(s) =~~= parts);
    }
}

/// The fixed pieces of the envelope hold no delimiter.
pub proof fn lemma_marks_delim_free()
    ensures
        field_ok(tag()),
        delim_free(tag()),
{
    assert forall|i: int| !delim_at(tag(), i) by {
        if delim_at(tag(), i) {
            assert(0 <= i && i + 4 <= 5);
            assert(tag()[0] == 'y');
            assert(tag()[1] == 'o');
            assert(false);
        }
    }
    assert(tag()[4] == 'k');
}

/// A field that keeps the header on one line: it holds no newline.
pub open spec fn no_newline(f: Seq<char>) -> bool {
    forall|k: int| 0 <= k < f.len() ==> f[k] != '\n'
}

/// An encoded header is a header line in the splitter's sense.
pub proof fn lemma_header_is_header(ts: Seq<char>, topic: Seq<char>, subject: Seq<char>)
    ensures
        is_header(header_text(ts, topic, subject)),
{
    let h = header_text(ts, topic, subject);
    assert(seq_starts_with(h, open_mark())) by {
        assert(h.subrange(0, 9) =~= open_mark());
    }
    assert(seq_ends_with(h, close_mark())) by {
        assert(h.subrange(h.len() - 3, h.len() as int) =~= close_mark());
    }
}

/// A header encoded from newline-free fields holds no newline, and ends
/// with `>`.
pub proof fn lemma_header_line_shape(ts: Seq<char>, topic: Seq<char>, subject: Seq<char>)
    requires
        no_newline(ts),
        no_newline(topic),
        no_newline(subject),
    ensures
        no_newline(header_text(ts, topic, subject)),
        header_text(ts, topic, subject).len() > 0,
        header_text(ts, topic, subject)[header_text(ts, topic, subject).len() - 1] == '>',
{
    let h = header_text(ts, topic, subject);
    assert(no_newline(open_mark())) by {
        assert forall|j: int| 0 <= j < open_mark().len() implies open_mark()[j] != '\n' by {
            if j == 0 {
            } else if j == 1 {
            } else if j == 2 {
            } else if j == 3 {
            } else if j == 4 {
            } else if j == 5 {
            } else if j == 6 {
            } else if j == 7 {
            }
        }
    }
    assert(no_newline(delim())) by {
        assert forall|j: int| 0 <= j < delim().len() implies delim()[j] != '\n' by {
            if j == 0 {
            } else if j == 1 {
            } else if j == 2 {
            }
        }
    }
    assert(no_newline(close_mark())) by {
        assert forall|j: int| 0 <= j < close_mark().len() implies close_mark()[j] != '\n' by {
            if j == 0 {
            } else if j == 1 {
            }
        }
    }
    assert forall|k: int| 0 <= k < h.len() implies h[k] != '\n' by {
        let a = open_mark() + delim() + ts + delim() + topic + delim() + subject;
        assert(h == a + close_mark());
        if k < a.len() {
            assert(h[k] == a[k]);
        } else {
            assert(h[k] == close_mark()[k - a.len()]);
        }
    }
    assert(h[h.len() - 1] == close_mark()[2]);
}

/// Round-trip law: decoding an encoded header yields exactly the encoded
/// fields, for any fields that hold no `::::`, the timestamp and topic
/// moreover not ending with a colon.
pub proof fn lemma_header_round_trip(ts: Seq<char>, topic: Seq<char>, subject: Seq<char>)
    requires
        field_ok(ts),
        field_ok(topic),
        delim_free(subject),
    ensures
        decode_spec(header_text(ts, topic, subject)) == Some((ts, topic, subject)),
{
    let h = header_text(ts, topic, subject);
    assert(h.len() == 24 + ts.len() + topic.len() + subject.len());
    assert(seq_starts_with(h, scan_mark())) by {
        assert(h.subrange(0, 4) =~= scan_mark());
    }
    assert(seq_ends_with(h, close_mark())) by {
        assert(h.subrange(h.len() - 3, h.len() as int) =~= close_mark());
    }
    let interior = h.subrange(4, h.len() - 3);
    let parts = seq![tag(), ts, topic, subject];
    reveal_with_fuel(join_delim, 5);
    assert(parts.drop_first() =~~= seq![ts, topic, subject]);
    assert(parts.drop_first().drop_first() =~~= seq![topic, subject]);
    assert(parts.drop_first().drop_first().drop_first() =~~= seq![subject]);
    assert(join_delim(parts) == tag() + delim() + (ts + delim() + (topic + delim() + subject)));
    assert(interior =~= join_delim(parts));
    lemma_marks_delim_free();
    lemma_split_join(parts);
    assert(decode_spec(h) == Some((ts, topic, subject)));
}

} // verus!
