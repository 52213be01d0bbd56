//! File text as a sequence of lines.
//!
//! A capture file's content is UTF-8 text; the store works on its lines.
//! `split_lines` partitions text at `\n`, dropping one `\r` before each
//! `\n` and treating the final line ending as optional, exactly as Rust's
//! `str::lines` does.  `join_lines` serializes lines back, terminating
//! every line with `\n`.

use vstd::prelude::*;
use vstd::string::*;

verus! {

/// A single newline.
pub open spec fn nl() -> Seq<char> {
    seq!['\n']
}

/// Index of the first `\n` at or after `i`, or `-1` if there is none.
pub open spec fn first_nl_from(s: Seq<char>, i: int) -> int
    decreases s.len() - i when 0 <= i
{
    if i >= s.len() {
        -1
    } else if s[i] == '\n' {
        i
    } else {
        first_nl_from(s, i + 1)
    }
}

/// Drops one carriage return at the end of a line, if present.
pub open spec fn strip_cr(line: Seq<char>) -> Seq<char> {
    if line.len() > 0 && line[line.len() - 1] == '\r' {
        line.subrange(0, line.len() - 1)
    } else {
        line
    }
}

/// The lines of `s` from position `i` on: split at `\n`, one `\r` before
/// each `\n` dropped, the final line ending optional.
pub open spec fn lines_of(s: Seq<char>, i: int) -> Seq<Seq<char>>
    decreases s.len() - i when 0 <= i <= s.len()
{
    if i >= s.len() {
        Seq::empty()
    } else {
        let j = first_nl_from(s, i);
        if j < 0 {
            seq![s.subrange(i, s.len() as int)]
        } else if i <= j < s.len() {
            seq![strip_cr(s.subrange(i, j))] + lines_of(s, j + 1)
        } else {
            // unreachable: the first newline lies in [i, s.len())
            Seq::empty()
        }
    }
}

/// The lines of a whole text.
pub open spec fn split_lines_spec(s: Seq<char>) -> Seq<Seq<char>> {
    lines_of(s, 0)
}

/// The text that serializes the given lines, each terminated by `\n`.
pub open spec fn lines_text(lines: Seq<Seq<char>>) -> Seq<char>
    decreases lines.len(),
{
    if lines.len() == 0 {
        Seq::empty()
    } else {
        lines[0] + nl() + lines_text(lines.drop_first())
    }
}

/// A line that serialization will reproduce: it holds no newline and does
/// not end with a carriage return.
pub open spec fn clean_line(l: Seq<char>) -> bool {
    &&& forall|k: int| 0 <= k < l.len() ==> l[k] != '\n'
    &&& (l.len() > 0 ==> l[l.len() - 1] != '\r')
}

/// Text whose lines come back unchanged: empty or `\n`-terminated, with no
/// `\r` immediately before a `\n`.
pub open spec fn clean_text(s: Seq<char>) -> bool {
    &&& (s.len() == 0 || s[s.len() - 1] == '\n')
    &&& forall|i: int| 0 < i < s.len() && #[trigger] s[i] == '\n' ==> s[i - 1] != '\r'
}

// ---------------------------------------------------------------------------
// Executable splitting and joining.
// ---------------------------------------------------------------------------

/// The leftmost `\n` at or after `from`, if any.
fn find_nl(s: &str, from: usize) -> (r: Option<usize>)
    requires
        from <= s@.len(),
    ensures
        match r {
            Some(j) => from <= j < s@.len() && s@[j as int] == '\n' && j == first_nl_from(
                s@,
                from as int,
            ),
            None => first_nl_from(s@, from as int) == -1,
        },
{
    let n = s.unicode_len();
    let mut i: usize = from;
    loop
        invariant
            from <= i <= n,
            n == s@.len(),
            first_nl_from(s@, from as int) == first_nl_from(s@, i as int),
        decreases n - i,
    {
        if i >= n {
            return None;
        }
        if s.get_char(i) == '\n' {
            return Some(i);
        }
        i += 1;
    }
}

/// Splits text into lines, as `str::lines` does.
pub fn split_lines(s: &str) -> (r: Vec<String>)
    ensures
        r.deep_view() == split_lines_spec(s@),
{
    let n = s.unicode_len();
    let mut out: Vec<String> = Vec::new();
    assert(out.deep_view() =~~= Seq::<Seq<char>>::empty());
    let mut start: usize = 0;
    loop
        invariant
            0 <= start <= n,
            n == s@.len(),
            split_lines_spec(s@) == out.deep_view() + lines_of(s@, start as int),
        decreases n - start,
    {
        let ghost prev: Seq<Seq<char>> = out.deep_view();
        if start >= n {
            proof {
                assert(out.deep_view() =~~= split_lines_spec(s@));
            }
            return out;
        }
        match find_nl(s, start) {
            None => {
                out.push(s.substring_char(start, n).to_owned());
                proof {
                    assert(lines_of(s@, start as int) == seq![s@.subrange(
                        start as int,
                        n as int,
                    )]);
                    assert(out.deep_view() =~~= split_lines_spec(s@));
                }
                return out;
            },
            Some(j) => {
                let end = if j > start && s.get_char(j - 1) == '\r' {
                    j - 1
                } else {
                    j
                };
                out.push(s.substring_char(start, end).to_owned());
                proof {
                    assert(strip_cr(s@.subrange(start as int, j as int)) =~= s@.subrange(
                        start as int,
                        end as int,
                    ));
                    assert(lines_of(s@, start as int) == seq![strip_cr(s@.subrange(
                        start as int,
                        j as int,
                    ))] + lines_of(s@, j + 1));
                    assert(out.deep_view() =~~= prev + seq![s@.subrange(
                        start as int,
                        end as int,
                    )]);
                    assert(out.deep_view() + lines_of(s@, j + 1) =~~= split_lines_spec(s@));
                }
                start = j + 1;
            },
        }
    }
}

/// Serializes lines back to text, each line terminated by `\n`.
pub fn join_lines(lines: &Vec<String>) -> (r: String)
    ensures
        r@ == lines_text(lines.deep_view()),
{
    proof {
        reveal_strlit("\n");
        assert("\n"@ =~= nl());
    }
    let mut out = String::new();
    let mut i: usize = 0;
    assert(out@ =~= lines_text(lines.deep_view().subrange(0, 0)));
    while i < lines.len()
        invariant
            0 <= i <= lines.len(),
            lines.deep_view().len() == lines.len(),
            out@ == lines_text(lines.deep_view().subrange(0, i as int)),
            "\n"@ == nl(),
        decreases lines.len() - i,
    {
        out.append(lines[i].as_str());
        out.append("\n");
        proof {
            lemma_lines_text_snoc(lines.deep_view().subrange(0, i as int), lines.deep_view()[i as int]);
            assert(lines.deep_view().subrange(0, i + 1) =~~= lines.deep_view().subrange(
                0,
                i as int,
            ).push(lines.deep_view()[i as int]));
        }
        i += 1;
    }
    proof {
        assert(lines.deep_view().subrange(0, lines.deep_view().len() as int) =~~= lines.deep_view());
    }
    out
}

// ---------------------------------------------------------------------------
// Laws of splitting and joining.
// ---------------------------------------------------------------------------

pub proof fn lemma_lines_text_snoc(ls: Seq<Seq<char>>, l: Seq<char>)
    ensures
        lines_text(ls.push(l)) == lines_text(ls) + l + nl(),
    decreases ls.len(),
{
    if ls.len() == 0 {
        assert(ls.push(l)[0] == l);
        assert(ls.push(l).drop_first() =~~= Seq::<Seq<char>>::empty());
        assert(lines_text(ls.push(l)) == l + nl() + lines_text(Seq::<Seq<char>>::empty()));
        assert(l + nl() + Seq::<char>::empty() =~~= Seq::<char>::empty() + l + nl());
        assert(lines_text(ls) == Seq::<char>::empty());
    } else {
        assert(ls.push(l)[0] == ls[0]);
        assert(ls.push(l).drop_first() =~~= ls.drop_first().push(l));
        lemma_lines_text_snoc(ls.drop_first(), l);
        assert(lines_text(ls.push(l)) == ls[0] + nl() + (lines_text(ls.drop_first()) + l + nl()));
        assert(lines_text(ls) == ls[0] + nl() + lines_text(ls.drop_first()));
        assert(ls[0] + nl() + (lines_text(ls.drop_first()) + l + nl()) =~~= (ls[0] + nl()
            + lines_text(ls.drop_first())) + l + nl());
    }
}

/// `first_nl_from` finds the leftmost newline at or after `i`.
pub proof fn lemma_first_nl_from(s: Seq<char>, i: int)
    requires
        0 <= i,
    ensures
        first_nl_from(s, i) == -1 ==> forall|k: int| i <= k < s.len() ==> s[k] != '\n',
        first_nl_from(s, i) != -1 ==> {
            let f = first_nl_from(s, i);
            &&& i <= f < s.len()
            &&& s[f] == '\n'
            &&& forall|k: int| i <= k < f ==> s[k] != '\n'
        },
    decreases s.len() - i,
{
    if i >= s.len() {
    } else if s[i] == '\n' {
    } else {
        lemma_first_nl_from(s, i + 1);
        let f = first_nl_from(s, i + 1);
        if f == -1 {
            assert forall|k: int| i <= k < s.len() implies s[k] != '\n' by {
                if k > i {
                    assert(i + 1 <= k);
                }
            }
        } else {
            assert forall|k: int| i <= k < f implies s[k] != '\n' by {
                if k > i {
                    assert(i + 1 <= k < f);
                }
            }
        }
    }
}

/// Conversely: a newline at `j` with none in `[i, j)` is the leftmost one.
pub proof fn lemma_first_nl_is(s: Seq<char>, i: int, j: int)
    requires
        0 <= i <= j < s.len(),
        s[j] == '\n',
        forall|k: int| i <= k < j ==> s[k] != '\n',
    ensures
        first_nl_from(s, i) == j,
    decreases j - i,
{
    if i < j {
        lemma_first_nl_is(s, i + 1, j);
    }
}

proof fn lemma_first_nl_shift(s: Seq<char>, i: int, m: int)
    requires
        0 <= i <= s.len(),
        0 <= m,
    ensures
        ({
            let t = s.subrange(i, s.len() as int);
            let f = first_nl_from(t, m);
            first_nl_from(s, i + m) == if f == -1 {
                -1int
            } else {
                i + f
            }
        }),
    decreases s.len() - i - m,
{
    let t = s.subrange(i, s.len() as int);
    if m >= t.len() {
    } else if t[m] == '\n' {
        assert(s[i + m] == '\n');
    } else {
        assert(s[i + m] != '\n');
        lemma_first_nl_shift(s, i, m + 1);
    }
}

/// Splitting from position `i` is splitting the suffix that starts there.
pub proof fn lemma_lines_of_suffix(s: Seq<char>, i: int)
    requires
        0 <= i <= s.len(),
    ensures
        lines_of(s, i) == split_lines_spec(s.subrange(i, s.len() as int)),
    decreases s.len() - i,
{
    let t = s.subrange(i, s.len() as int);
    lemma_first_nl_shift(s, i, 0);
    if i >= s.len() {
        assert(t.len() == 0);
    } else {
        let f = first_nl_from(t, 0);
        if f == -1 {
            assert(t.subrange(0, t.len() as int) =~= t);
            assert(s.subrange(i, s.len() as int) =~= t);
        } else {
            lemma_first_nl_from(t, 0);
            assert(s.subrange(i, i + f) =~= t.subrange(0, f));
            lemma_lines_of_suffix(s, i + f + 1);
            lemma_lines_of_suffix(t, f + 1);
            assert(s.subrange(i + f + 1, s.len() as int) =~= t.subrange(f + 1, t.len() as int));
        }
    }
}

/// Serialized clean lines come back unchanged from the line splitter.
pub proof fn lemma_split_join_lines(ls: Seq<Seq<char>>)
    requires
        forall|p: int| 0 <= p < ls.len() ==> clean_line(#[trigger] ls[p]),
    ensures
        split_lines_spec(lines_text(ls)) == ls,
    decreases ls.len(),
{
    let s = lines_text(ls);
    if ls.len() == 0 {
        assert(split_lines_spec(s) =~~= ls);
    } else {
        let l0 = ls[0];
        let rest = lines_text(ls.drop_first());
        assert(s == l0 + nl() + rest);
        let m = l0.len() as int;
        assert(s[m] == '\n');
        assert forall|k: int| 0 <= k < m implies s[k] != '\n' by {
            assert(s[k] == l0[k]);
        }
        lemma_first_nl_is(s, 0, m);
        assert(lines_of(s, 0) == seq![strip_cr(s.subrange(0, m))] + lines_of(s, m + 1));
        assert(s.subrange(0, m) =~= l0);
        assert(strip_cr(l0) == l0);
        lemma_lines_of_suffix(s, m + 1);
        assert(s.subrange(m + 1, s.len() as int) =~= rest);
        assert forall|p: int| 0 <= p < ls.drop_first().len() implies clean_line(
            #[trigger] ls.drop_first()[p],
        ) by {
            assert(ls.drop_first()[p] == ls[p + 1]);
        }
        lemma_split_join_lines(ls.drop_first());
        assert(lines_of(s, 0) =~~= ls);
    }
}

/// Splitting clean text and serializing the lines reproduces the text.
pub proof fn lemma_join_split_lines(s: Seq<char>)
    requires
        clean_text(s),
    ensures
        lines_text(split_lines_spec(s)) == s,
    decreases s.len(),
{
    if s.len() == 0 {
    } else {
        lemma_first_nl_from(s, 0);
        let j = first_nl_from(s, 0);
        if j == -1 {
            assert(s[s.len() - 1] != '\n');
            assert(false);
        }
        assert(0 <= j < s.len() && s[j] == '\n');
        assert(lines_of(s, 0) == seq![strip_cr(s.subrange(0, j))] + lines_of(s, j + 1));
        assert(strip_cr(s.subrange(0, j)) =~= s.subrange(0, j)) by {
            let u = s.subrange(0, j);
            if u.len() > 0 && u[u.len() - 1] == '\r' {
                assert(s[j - 1] == '\r');
                assert(false);
            }
        }
        lemma_lines_of_suffix(s, j + 1);
        let t = s.subrange(j + 1, s.len() as int);
        assert(clean_text(t)) by {
            if t.len() > 0 {
                assert(t[t.len() - 1] == s[s.len() - 1]);
            }
            assert forall|k: int| 0 < k < t.len() && #[trigger] t[k] == '\n' implies t[k - 1]
                != '\r' by {
                assert(t[k] == s[j + 1 + k]);
                assert(t[k - 1] == s[j + k]);
            }
        }
        lemma_join_split_lines(t);
        assert((seq![s.subrange(0, j)] + split_lines_spec(t)).drop_first() =~~= split_lines_spec(
            t,
        ));
        assert(lines_of(s, 0)[0] == s.subrange(0, j));
        assert(lines_text(lines_of(s, 0)) == s.subrange(0, j) + nl() + t);
        assert(s.subrange(0, j) + nl() + t =~= s);
    }
}

pub proof fn lemma_lines_text_concat(a: Seq<Seq<char>>, b: Seq<Seq<char>>)
    ensures
        lines_text(a + b) == lines_text(a) + lines_text(b),
    decreases a.len(),
{
    if a.len() == 0 {
        assert(a + b =~~= b);
        assert(lines_text(a) + lines_text(b) =~~= lines_text(b));
    } else {
        assert((a + b)[0] == a[0]);
        assert((a + b).drop_first() =~~= a.drop_first() + b);
        lemma_lines_text_concat(a.drop_first(), b);
        assert(lines_text(a + b) == a[0] + nl() + (lines_text(a.drop_first()) + lines_text(b)));
        assert(lines_text(a) == a[0] + nl() + lines_text(a.drop_first()));
        assert(a[0] + nl() + (lines_text(a.drop_first()) + lines_text(b)) =~~= (a[0] + nl()
            + lines_text(a.drop_first())) + lines_text(b));
    }
}

} // verus!
