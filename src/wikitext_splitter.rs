//! Splits a page's wikitext once into its headings and the content between
//! them; nesting is worked out afterwards from the heading levels alone.
use vstd::prelude::*;

use crate::text::{
    append_range, chars_of, contains, contains_chars, lead_run, lemma_lead_run,
    lemma_trail_run, push_char, string_of, trail_run, trim, trim_range,
};

verus! {

/// A heading line: `level` is the number of `=` on each side (2 for
/// `==English==`), `text` what stands between them, trimmed.
#[derive(Debug, Clone, PartialEq, Eq)]
pub struct Heading {
    pub level: usize,
    pub text: String,
}

impl View for Heading {
    type V = (nat, Seq<char>);

    open spec fn view(&self) -> (nat, Seq<char>) {
        (self.level as nat, self.text@)
    }
}

/// Index of the first `'\n'` in `s`, or `s.len()` if there is none.
pub open spec fn newline_pos(s: Seq<char>) -> nat
    decreases s.len(),
{
    if s.len() == 0 {
        0
    } else if s[0] == '\n' {
        0
    } else {
        1 + newline_pos(s.drop_first())
    }
}

/// `l` without one trailing carriage return.
pub open spec fn strip_cr(l: Seq<char>) -> Seq<char> {
    if l.len() > 0 && l.last() == '\r' {
        l.drop_last()
    } else {
        l
    }
}

/// The lines of `s` as `str::lines` gives them: split at `'\n'`, a `'\r'`
/// before the `'\n'` dropped, no empty line after a final `'\n'`.
pub open spec fn lines_of(s: Seq<char>) -> Seq<Seq<char>>
    decreases s.len(),
{
    if s.len() == 0 {
        seq![]
    } else {
        let e = newline_pos(s);
        if e >= s.len() {
            seq![s]
        } else {
            seq![strip_cr(s.subrange(0, e as int))] + lines_of(s.subrange(e as int + 1, s.len() as int))
        }
    }
}

/// The heading that the line `line` is, if it is one: the trimmed line
/// starts and ends with runs of `=` of one length, at least 2, and what
/// stands between them is not blank once trimmed.
pub open spec fn heading_of_line(line: Seq<char>) -> Option<(nat, Seq<char>)> {
    let t = trim(line);
    let l = lead_run(t, '=');
    let r = trail_run(t, '=');
    let inner = trim(t.subrange(l as int, t.len() - r));
    if l >= 2 && l == r && 2 * l < t.len() && inner.len() > 0 {
        Some((l, inner))
    } else {
        None
    }
}

/// Lines joined with `'\n'` between them.
pub open spec fn join_lines(ls: Seq<Seq<char>>) -> Seq<char>
    decreases ls.len(),
{
    if ls.len() == 0 {
        seq![]
    } else if ls.len() == 1 {
        ls[0]
    } else {
        join_lines(ls.drop_last()) + seq!['\n'] + ls.last()
    }
}

/// The headings among `lines`, and for each stretch between them the lines
/// it holds: the stretch before the first heading, then one per heading.
pub open spec fn split_lines(lines: Seq<Seq<char>>) -> (Seq<(nat, Seq<char>)>, Seq<Seq<Seq<char>>>)
    decreases lines.len(),
{
    if lines.len() == 0 {
        (seq![], seq![seq![]])
    } else {
        let prev = split_lines(lines.drop_last());
        let l = lines.last();
        match heading_of_line(l) {
            Some(h) => (prev.0.push(h), prev.1.push(seq![])),
            None => (prev.0, prev.1.update(prev.1.len() - 1, prev.1.last().push(l))),
        }
    }
}

/// The headings of `text`, in order.
pub open spec fn headings_of(text: Seq<char>) -> Seq<(nat, Seq<char>)> {
    split_lines(lines_of(text)).0
}

/// The content chunks of `text`: the prologue, then the text under each heading.
pub open spec fn chunks_of(text: Seq<char>) -> Seq<Seq<char>> {
    split_lines(lines_of(text)).1.map_values(|ls: Seq<Seq<char>>| join_lines(ls))
}

proof fn lemma_split_lines_len(lines: Seq<Seq<char>>)
    ensures
        split_lines(lines).1.len() == split_lines(lines).0.len() + 1,
    decreases lines.len(),
{
    if lines.len() > 0 {
        lemma_split_lines_len(lines.drop_last());
    }
}

proof fn lemma_newline_pos(s: Seq<char>, e: int)
    requires
        0 <= e <= s.len(),
        forall|j: int| 0 <= j < e ==> s[j] != '\n',
        e == s.len() || s[e] == '\n',
    ensures
        newline_pos(s) == e,
    decreases e,
{
    if e > 0 {
        lemma_newline_pos(s.drop_first(), e - 1);
    }
}

/// The heading that `v[lo..hi]` is, if it is one.
fn heading_in(v: &Vec<char>, lo: usize, hi: usize) -> (r: Option<Heading>)
    requires
        lo <= hi <= v@.len(),
    ensures
        match r {
            Some(h) => heading_of_line(v@.subrange(lo as int, hi as int)) == Some(h@),
            None => heading_of_line(v@.subrange(lo as int, hi as int)) is None,
        },
{
    let (a, b) = trim_range(v, lo, hi);
    let ghost t = v@.subrange(a as int, b as int);
    let mut l = a;
    while l < b && v[l] == '='
        invariant
            a <= l <= b <= v@.len(),
            forall|j: int| a <= j < l ==> v@[j] == '=',
        decreases b - l,
    {
        l += 1;
    }
    proof {
        lemma_lead_run(t, '=', l - a);
    }
    let mut r = b;
    while r > a && v[r - 1] == '='
        invariant
            a <= r <= b <= v@.len(),
            forall|j: int| r <= j < b ==> v@[j] == '=',
        decreases r - a,
    {
        r -= 1;
    }
    proof {
        lemma_trail_run(t, '=', b - r);
    }
    let nl = l - a;
    let nr = b - r;
    if nl < 2 || nl != nr || nl >= b - a - nl {
        return None;
    }
    let (c, d) = trim_range(v, l, r);
    assert(t.subrange(nl as int, t.len() - nr) =~= v@.subrange(l as int, r as int));
    if c == d {
        return None;
    }
    Some(Heading { level: nl, text: string_of(v, c, d) })
}

/// The heading that `line` is, if it is one (`"=== Foo ==="` is level 3,
/// text `"Foo"`; `"=Baz="` and `"===Unbalanced=="` are none).
pub fn parse_heading(line: &str) -> (r: Option<Heading>)
    ensures
        match r {
            Some(h) => heading_of_line(line@) == Some(h@),
            None => heading_of_line(line@) is None,
        },
{
    let v = chars_of(line);
    assert(v@.subrange(0, v@.len() as int) =~= v@);
    heading_in(&v, 0, v.len())
}

/// Splits `wikitext` into its headings and the content chunks around them.
/// `content[0]` is the prologue before the first heading and `content[i]`
/// the text under `headings[i - 1]`: the non-heading lines, verbatim,
/// joined by `'\n'`. There is always one chunk more than headings.
pub fn split_by_headings(wikitext: &str) -> (r: (Vec<Heading>, Vec<String>))
    ensures
        r.0@.map_values(|h: Heading| h@) == headings_of(wikitext@),
        r.1@.map_values(|s: String| s@) == chunks_of(wikitext@),
        r.1@.len() == r.0@.len() + 1,
{
    let v = chars_of(wikitext);
    let ghost s = v@;
    let n = v.len();
    let mut headings: Vec<Heading> = Vec::new();
    let mut chunks: Vec<String> = Vec::new();
    let mut current = String::new();
    let mut current_has_line = false;
    let ghost mut done: Seq<Seq<char>> = seq![];
    let mut start: usize = 0;
    assert(s.subrange(0, n as int) =~= s);
    while start < n
        invariant
            n == s.len(),
            s == v@,
            s == wikitext@,
            start <= n,
            done + lines_of(s.subrange(start as int, n as int)) == lines_of(s),
            headings@.map_values(|h: Heading| h@) == split_lines(done).0,
            chunks@.map_values(|c: String| c@) == split_lines(done).1.drop_last().map_values(
                |ls: Seq<Seq<char>>| join_lines(ls),
            ),
            current@ == join_lines(split_lines(done).1.last()),
            current_has_line == (split_lines(done).1.last().len() > 0),
            split_lines(done).1.len() == split_lines(done).0.len() + 1,
        decreases n - start,
    {
        let ghost rest = s.subrange(start as int, n as int);
        let mut e = start;
        while e < n && v[e] != '\n'
            invariant
                start <= e <= n == v@.len(),
                forall|j: int| start <= j < e ==> v@[j] != '\n',
            decreases n - e,
        {
            e += 1;
        }
        proof {
            lemma_newline_pos(rest, e - start);
        }
        let mut le = e;
        if e < n && le > start && v[le - 1] == '\r' {
            le -= 1;
        }
        let ghost line = v@.subrange(start as int, le as int);
        proof {
            if e < n {
                assert(rest.subrange(0, e - start) =~= v@.subrange(start as int, e as int));
                assert(rest.subrange(e - start + 1, rest.len() as int) =~= s.subrange(
                    e + 1,
                    n as int,
                ));
                assert(line == strip_cr(rest.subrange(0, e - start)));
            } else {
                assert(line =~= rest);
            }
        }
        let ghost old_done = done;
        proof {
            done = done.push(line);
            assert(done.drop_last() =~= old_done);
            lemma_split_lines_len(old_done);
        }
        match heading_in(&v, start, le) {
            Some(h) => {
                let ghost old_chunks = chunks@;
                let ghost old_current = current@;
                chunks.push(current);
                current = String::new();
                current_has_line = false;
                headings.push(h);
                proof {
                    let oc = split_lines(old_done).1;
                    assert(split_lines(done).1.drop_last() =~= oc);
                    assert(oc =~= oc.drop_last().push(oc.last()));
                    assert(old_chunks.map_values(|c: String| c@).len() == old_chunks.len());
                    assert(oc.drop_last().map_values(|ls: Seq<Seq<char>>| join_lines(ls)).len()
                        == oc.len() - 1);
                    assert(chunks@.len() == oc.len());
                    assert(chunks@[chunks@.len() - 1]@ == old_current);
                    assert forall|k: int| 0 <= k < chunks@.len() implies chunks@[k]@ == join_lines(
                        oc[k],
                    ) by {
                        if k < chunks@.len() - 1 {
                            assert(chunks@[k] == old_chunks[k]);
                            assert(old_chunks.map_values(|c: String| c@)[k] == oc.drop_last().map_values(
                                |ls: Seq<Seq<char>>| join_lines(ls),
                            )[k]);
                        }
                    }
                    assert(chunks@.map_values(|c: String| c@) =~= split_lines(done).1.drop_last().map_values(
                        |ls: Seq<Seq<char>>| join_lines(ls),
                    ));
                    assert(headings@.map_values(|h: Heading| h@) =~= split_lines(done).0);
                    assert(current@ =~= join_lines(split_lines(done).1.last()));
                }
            },
            None => {
                let ghost cur_lines = split_lines(old_done).1.last();
                if current_has_line {
                    push_char(&mut current, '\n');
                }
                append_range(&mut current, &v, start, le);
                current_has_line = true;
                proof {
                    let nl = cur_lines.push(line);
                    assert(nl.drop_last() =~= cur_lines);
                    if cur_lines.len() == 0 {
                        assert(current@ =~= join_lines(nl));
                    } else {
                        assert(current@ =~= join_lines(nl));
                    }
                    assert(split_lines(done).1.last() == nl);
                    assert(split_lines(done).1.drop_last() =~= split_lines(old_done).1.drop_last());
                }
            },
        }
        proof {
            if e < n {
                assert(lines_of(rest) == seq![line] + lines_of(s.subrange(e + 1, n as int)));
                assert(done + lines_of(s.subrange(e + 1, n as int)) =~= old_done + lines_of(rest));
            } else {
                assert(lines_of(rest) == seq![line]);
                assert(s.subrange(n as int, n as int) =~= Seq::<char>::empty());
                assert(done + lines_of(s.subrange(n as int, n as int)) =~= old_done + lines_of(rest));
            }
        }
        start = if e < n {
            e + 1
        } else {
            n
        };
    }
    assert(s.subrange(n as int, n as int) =~= Seq::<char>::empty());
    assert(done =~= lines_of(s));
    chunks.push(current);
    proof {
        let cs = split_lines(done).1;
        assert(cs.drop_last().push(cs.last()) =~= cs);
        assert forall|k: int| 0 <= k < chunks@.len() implies chunks@[k]@ == join_lines(cs[k]) by {
            if k < chunks@.len() - 1 {
                assert(chunks@.drop_last().map_values(|c: String| c@)[k] == cs.drop_last().map_values(
                    |ls: Seq<Seq<char>>| join_lines(ls),
                )[k]);
            }
        }
        assert(chunks@.map_values(|c: String| c@) =~= cs.map_values(
            |ls: Seq<Seq<char>>| join_lines(ls),
        ));
    }
    (headings, chunks)
}

/// Whether heading `h` opens the section of `language`: level 2, and the
/// language name occurs in its text.
pub open spec fn opens_language(h: (nat, Seq<char>), language: Seq<char>) -> bool {
    h.0 == 2 && contains(h.1, language)
}

/// The span `(start, end)` of the section of `language`: `start` is the
/// first level-2 heading whose text contains `language`, `end` the next
/// level-2 heading after it, or the number of headings. `None` when no
/// level-2 heading contains `language`.
pub fn find_language_section(headings: &[Heading], language: &str) -> (r: Option<(usize, usize)>)
    ensures
        match r {
            None => forall|i: int|
                0 <= i < headings@.len() ==> !opens_language(#[trigger] headings@[i]@, language@),
            Some((start, end)) => {
                &&& start < end <= headings@.len()
                &&& opens_language(headings@[start as int]@, language@)
                &&& forall|i: int|
                    0 <= i < start ==> !opens_language(#[trigger] headings@[i]@, language@)
                &&& forall|i: int| start < i < end ==> #[trigger] headings@[i].level != 2
                &&& end == headings@.len() || headings@[end as int].level == 2
            },
        },
{
    let lang = chars_of(language);
    let mut i: usize = 0;
    let mut found = false;
    while i < headings.len() && !found
        invariant
            i <= headings@.len(),
            lang@ == language@,
            found ==> i < headings@.len() && opens_language(headings@[i as int]@, language@),
            forall|j: int| 0 <= j < i ==> !opens_language(#[trigger] headings@[j]@, language@),
        decreases headings@.len() - i + if found {
            0int
        } else {
            1int
        },
    {
        let mut hit = false;
        if headings[i].level == 2 {
            let t = chars_of(headings[i].text.as_str());
            hit = contains_chars(&t, &lang);
        }
        if hit {
            found = true;
        } else {
            i += 1;
        }
    }
    if !found {
        None
    } else {
        let s = i;
        {
            let mut end = s + 1;
            while end < headings.len() && headings[end].level != 2
                invariant
                    s < end <= headings@.len(),
                    forall|j: int| s < j < end ==> #[trigger] headings@[j].level != 2,
                decreases headings@.len() - end,
            {
                end += 1;
            }
            Some((s, end))
        }
    }
}

/// Indices of the level-3 headings among `levels[start..end]`, in order.
pub open spec fn level3_indices(levels: Seq<nat>, start: int, end: int) -> Seq<usize>
    decreases end - start,
{
    if end <= start {
        seq![]
    } else if levels[end - 1] == 3 {
        level3_indices(levels, start, end - 1).push((end - 1) as usize)
    } else {
        level3_indices(levels, start, end - 1)
    }
}

/// The levels of `headings`, in order.
pub open spec fn levels_of(headings: Seq<Heading>) -> Seq<nat> {
    headings.map_values(|h: Heading| h.level as nat)
}

/// Indices of the level-3 headings among `headings[start..end]`, in order.
pub fn l3_headings_in_section(headings: &[Heading], start: usize, end: usize) -> (r: Vec<usize>)
    requires
        start <= end <= headings@.len(),
    ensures
        r@ == level3_indices(levels_of(headings@), start as int, end as int),
{
    let mut r: Vec<usize> = Vec::new();
    let mut i = start;
    while i < end
        invariant
            start <= i <= end <= headings@.len(),
            r@ == level3_indices(levels_of(headings@), start as int, i as int),
        decreases end - i,
    {
        if headings[i].level == 3 {
            r.push(i);
        }
        i += 1;
    }
    r
}

/// The content under heading `heading_idx`: `content_chunks[heading_idx + 1]`,
/// or the empty string past the end.
pub fn content_for_heading(content_chunks: &[String], heading_idx: usize) -> (r: &str)
    ensures
        r@ == if heading_idx + 1 < content_chunks@.len() {
            content_chunks@[heading_idx + 1]@
        } else {
            Seq::<char>::empty()
        },
{
    if heading_idx < content_chunks.len() && heading_idx + 1 < content_chunks.len() {
        content_chunks[heading_idx + 1].as_str()
    } else {
        proof {
            reveal_strlit("");
        }
        let e = "";
        assert(e@ =~= Seq::<char>::empty());
        e
    }
}

} // verus!
