//! Parsing of course inputs: the flat edge file (a header line followed by
//! comma-separated endpoint lines) and the structured topic descriptors.

use vstd::prelude::*;

use crate::seqs::find_first;
use crate::seqs::lemma_find_first_is;

verus! {

/// A line without its trailing carriage return, if it has one.
pub open spec fn chomp(line: Seq<char>) -> Seq<char> {
    if line.len() > 0 && line.last() == '\r' {
        line.drop_last()
    } else {
        line
    }
}

/// The lines of `s`: split at every line feed, dropping a carriage return
/// that stands right before one; a final line needs no terminator, and a
/// trailing terminator adds no empty line.
pub open spec fn split_lines(s: Seq<char>) -> Seq<Seq<char>>
    decreases s.len(),
{
    if s.len() == 0 {
        Seq::empty()
    } else {
        let i = find_first(s, '\n');
        if 0 <= i < s.len() {
            seq![chomp(s.subrange(0, i))] + split_lines(s.subrange(i + 1, s.len() as int))
        } else {
            seq![s]
        }
    }
}

/// The edge a line declares: the fields before the first comma and between
/// the first and second comma (or the end); a line without a comma declares
/// none.
pub open spec fn line_edge(line: Seq<char>) -> Option<(Seq<char>, Seq<char>)> {
    let i = find_first(line, ',');
    if i == line.len() {
        None
    } else {
        let rest = line.subrange(i + 1, line.len() as int);
        let j = find_first(rest, ',');
        Some((line.subrange(0, i), rest.subrange(0, j)))
    }
}

/// The edges declared by a list of lines, in order.
pub open spec fn lines_edges(lines: Seq<Seq<char>>) -> Seq<(Seq<char>, Seq<char>)>
    decreases lines.len(),
{
    if lines.len() == 0 {
        Seq::empty()
    } else {
        match line_edge(lines[0]) {
            Some(e) => seq![e] + lines_edges(lines.drop_first()),
            None => lines_edges(lines.drop_first()),
        }
    }
}

/// The edges of a whole edge file: its first line is a header and counts for
/// nothing.
pub open spec fn text_edges(s: Seq<char>) -> Seq<(Seq<char>, Seq<char>)> {
    if split_lines(s).len() == 0 {
        Seq::empty()
    } else {
        lines_edges(split_lines(s).drop_first())
    }
}

/// Index of the first occurrence of `c` in `s`, or the length of `s`.
fn find_char(s: &str, c: char) -> (r: usize)
    ensures
        r as int == find_first(s@, c),
        r <= s@.len(),
{
    let n = s.unicode_len();
    let mut i: usize = 0;
    while i < n
        invariant
            i <= n,
            n == s@.len(),
            forall|t: int| 0 <= t < i ==> s@[t] != c,
        decreases n - i,
    {
        if s.get_char(i) == c {
            proof {
                lemma_find_first_is(s@, c, i as int);
            }
            return i;
        }
        i += 1;
    }
    proof {
        lemma_find_first_is(s@, c, s@.len() as int);
    }
    n
}

/// The edge one line declares, as owned strings.
fn parse_line_edge(line: &str) -> (r: Option<(String, String)>)
    ensures
        r.deep_view() == line_edge(line@),
{
    let n = line.unicode_len();
    let i = find_char(line, ',');
    if i == n {
        None
    } else {
        let src = line.substring_char(0, i).to_owned();
        let rest = line.substring_char(i + 1, n);
        let j = find_char(rest, ',');
        let dst = rest.substring_char(0, j).to_owned();
        Some((src, dst))
    }
}

/// Parse a whole edge file: skip the header line, then collect the edge of
/// every line that declares one.
pub fn parse_edges_text(text: &str) -> (r: Vec<(String, String)>)
    ensures
        r.deep_view() == text_edges(text@),
{
    let mut out: Vec<(String, String)> = Vec::new();
    let n = text.unicode_len();
    if n == 0 {
        assert(out.deep_view() =~= text_edges(text@));
        return out;
    }
    let h = find_char(text, '\n');
    if h == n {
        proof {
            assert(split_lines(text@) =~= seq![text@]);
            assert(split_lines(text@).drop_first() =~= Seq::<Seq<char>>::empty());
        }
        assert(out.deep_view() =~= text_edges(text@));
        return out;
    }
    let mut cur: &str = text.substring_char(h + 1, n);
    proof {
        assert(split_lines(text@).drop_first() =~= split_lines(cur@));
        assert(out.deep_view() + lines_edges(split_lines(cur@)) =~= text_edges(text@));
    }
    while cur.unicode_len() != 0
        invariant
            out.deep_view() + lines_edges(split_lines(cur@)) =~= text_edges(text@),
        decreases cur@.len(),
    {
        let m = cur.unicode_len();
        let j = find_char(cur, '\n');
        let ghost lines = split_lines(cur@);
        let line: &str;
        let next: &str;
        if j == m {
            line = cur;
            next = "";
            proof {
                reveal_strlit("");
                assert(lines =~= seq![cur@]);
                assert(lines[0] == cur@);
                assert(lines.drop_first() =~= split_lines(next@));
            }
        } else {
            let end = if j > 0 && cur.get_char(j - 1) == '\r' {
                j - 1
            } else {
                j
            };
            line = cur.substring_char(0, end);
            next = cur.substring_char(j + 1, m);
            proof {
                assert(cur@.subrange(0, j as int).len() == j as int);
                if j > 0 && cur@[j - 1] == '\r' {
                    assert(cur@.subrange(0, j as int).last() == cur@[j - 1]);
                    assert(line@ =~= cur@.subrange(0, j as int).drop_last());
                } else if j > 0 {
                    assert(cur@.subrange(0, j as int).last() == cur@[j - 1]);
                }
                assert(line@ =~= chomp(cur@.subrange(0, j as int)));
                assert(lines =~= seq![line@] + split_lines(next@));
                assert(lines[0] == line@);
                assert(lines.drop_first() =~= split_lines(next@));
            }
        }
        let ghost pre = out.deep_view();
        match parse_line_edge(line) {
            Some(e) => {
                out.push(e);
                proof {
                    assert(line_edge(lines[0]) is Some);
                    assert(out.deep_view() =~= pre.push(line_edge(lines[0])->Some_0));
                    assert(pre + lines_edges(lines) =~= out.deep_view() + lines_edges(
                        lines.drop_first(),
                    ));
                }
            },
            None => {
                proof {
                    assert(line_edge(lines[0]) is None);
                    assert(pre + lines_edges(lines) =~= out.deep_view() + lines_edges(
                        lines.drop_first(),
                    ));
                }
            },
        }
        cur = next;
    }
    proof {
        assert(split_lines(cur@) =~= Seq::<Seq<char>>::empty());
        assert(lines_edges(split_lines(cur@)) =~= Seq::<(Seq<char>, Seq<char>)>::empty());
        assert(out.deep_view() =~= text_edges(text@));
    }
    out
}

/// What parsing a topic descriptor yields, as a function of the text alone:
/// an error for text that is not a structured document at all, nothing for a
/// document without both a string `id` and a list `ass`, and otherwise the id
/// with the list's length.
pub uninterp spec fn descriptor_of(text: Seq<char>) -> Result<Option<(Seq<char>, usize)>, ()>;

/// Relies on `serde_json::from_str::<serde_json::Value>` and on
/// `serde_json::Value::{get, as_str, as_array}`: whether the text parses as a
/// structured document, and which `id` string and `ass` list length the
/// document carries when both fields are present and well-typed, are
/// functions of the text alone.
#[verifier::external_body]
pub fn parse_descriptor(text: &str) -> (r: Result<Option<(String, usize)>, ()>)
    ensures
        (match r {
            Ok(Some((id, n))) => descriptor_of(text@) == Ok::<Option<(Seq<char>, usize)>, ()>(
                Some((id@, n)),
            ),
            Ok(None) => descriptor_of(text@) == Ok::<Option<(Seq<char>, usize)>, ()>(None),
            Err(()) => descriptor_of(text@) == Err::<Option<(Seq<char>, usize)>, ()>(()),
        }),
{
    let v: serde_json::Value = match serde_json::from_str(text) {
        Ok(v) => v,
        Err(_) => {
            return Err(());
        },
    };
    match (v.get("id"), v.get("ass")) {
        (Some(id), Some(ass)) => match (id.as_str(), ass.as_array()) {
            (Some(s), Some(arr)) => Ok(Some((s.to_owned(), arr.len()))),
            _ => Ok(None),
        },
        _ => Ok(None),
    }
}

} // verus!
