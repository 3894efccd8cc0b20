//! Physical line splitting and RFC 5545 line unfolding.
use vstd::prelude::*;
use crate::text::{chars_of, string_from_range, append_range, views};

verus! {

/// `c` ends a physical line.
pub open spec fn is_line_break(c: char) -> bool {
    c == '\r' || c == '\n'
}

/// `k` is the index of the first line-break character of `s`.
pub open spec fn is_first_break(s: Seq<char>, k: int) -> bool {
    &&& 0 <= k < s.len()
    &&& is_line_break(s[k])
    &&& forall|j: int| 0 <= j < k ==> !is_line_break(#[trigger] s[j])
}

/// Where the first physical line of `s` ends: the index of its first
/// `\r` or `\n`, or the length of `s` when it has none.
pub open spec fn line_end(s: Seq<char>) -> int {
    if exists|k: int| is_first_break(s, k) {
        choose|k: int| is_first_break(s, k)
    } else {
        s.len() as int
    }
}

/// The length of the terminator that starts at the break `s[k]`:
/// two for `\r\n`, one for a lone `\r` or `\n`.
pub open spec fn terminator_len(s: Seq<char>, k: int) -> int {
    if s[k] == '\r' && k + 1 < s.len() && s[k + 1] == '\n' {
        2
    } else {
        1
    }
}

/// The physical lines of `s`, split on `\r\n`, `\n` or a lone `\r`, without
/// their terminators. A terminator at the very end opens no further line.
pub open spec fn spec_split_lines(s: Seq<char>) -> Seq<Seq<char>>
    decreases s.len(),
{
    if s.len() == 0 {
        seq![]
    } else {
        let k = line_end(s);
        if k < s.len() {
            proof {
                lemma_line_end_bounds(s);
            }
            seq![s.take(k)] + spec_split_lines(s.skip(k + terminator_len(s, k)))
        } else {
            seq![s]
        }
    }
}

/// `line_end` lies within `s`.
pub proof fn lemma_line_end_bounds(s: Seq<char>)
    ensures
        0 <= line_end(s) <= s.len(),
        line_end(s) < s.len() ==> is_first_break(s, line_end(s)),
        line_end(s) == s.len() ==> forall|j: int| 0 <= j < s.len() ==> !is_line_break(#[trigger] s[j]),
{
    if !(exists|k: int| is_first_break(s, k)) {
        assert forall|j: int| 0 <= j < s.len() implies !is_line_break(#[trigger] s[j]) by {
            if is_line_break(s[j]) {
                lemma_first_break_exists(s, j);
            }
        }
    }
}

/// A line break at `j` means some first break exists.
proof fn lemma_first_break_exists(s: Seq<char>, j: int)
    requires
        0 <= j < s.len(),
        is_line_break(s[j]),
    ensures
        exists|k: int| is_first_break(s, k),
    decreases j,
{
    if forall|i: int| 0 <= i < j ==> !is_line_break(#[trigger] s[i]) {
        assert(is_first_break(s, j));
    } else {
        let i = choose|i: int| 0 <= i < j && is_line_break(#[trigger] s[i]);
        lemma_first_break_exists(s, i);
    }
}

/// The first line of `s` ends at `k` when no break precedes `k` and `k` is a
/// break or the end of `s`.
pub proof fn lemma_line_end_at(s: Seq<char>, k: int)
    requires
        0 <= k <= s.len(),
        forall|j: int| 0 <= j < k ==> !is_line_break(#[trigger] s[j]),
        k == s.len() || is_line_break(s[k]),
    ensures
        line_end(s) == k,
{
    lemma_line_end_bounds(s);
    let e = line_end(s);
    if e < k {
        assert(is_line_break(s[e]));
    } else if e > k {
        assert(is_line_break(s[k]));
    }
}

/// Splits text into lines on `\r\n`, `\n`, or bare `\r`, without keeping
/// the terminator. iCalendar files are supposed to use CRLF but plenty of
/// real-world files don't bother.
pub fn split_lines(text: &str) -> (lines: Vec<String>)
    ensures
        views(lines@) == spec_split_lines(text@),
{
    let v = chars_of(text);
    let n = v.len();
    let mut lines: Vec<String> = Vec::new();
    let mut start: usize = 0;
    let mut i: usize = 0;
    assert(views(lines@) + spec_split_lines(v@.skip(0)) =~= spec_split_lines(v@)) by {
        assert(v@.skip(0) =~= v@);
    }
    while i < n
        invariant
            n == v.len(),
            v@ == text@,
            0 <= start <= i <= n,
            forall|j: int| start <= j < i ==> !is_line_break(#[trigger] v@[j]),
            views(lines@) + spec_split_lines(v@.skip(start as int)) == spec_split_lines(v@),
        decreases n - i,
    {
        let c = v[i];
        if c == '\r' || c == '\n' {
            let ghost rest = v@.skip(start as int);
            let ghost k = (i - start) as int;
            let line = string_from_range(&v, start, i);
            let mut next = i + 1;
            if c == '\r' && next < n && v[next] == '\n' {
                next = next + 1;
            }
            proof {
                assert forall|j: int| 0 <= j < k implies !is_line_break(#[trigger] rest[j]) by {
                    assert(rest[j] == v@[start + j]);
                }
                assert(rest[k] == v@[i as int]);
                lemma_line_end_at(rest, k);
                assert(terminator_len(rest, k) == next - i);
                assert(rest.take(k) =~= line@);
                assert(rest.skip(k + terminator_len(rest, k)) =~= v@.skip(next as int));
                assert(views(lines@.push(line)) =~= views(lines@).push(line@));
                assert(views(lines@).push(line@) + spec_split_lines(v@.skip(next as int))
                    =~= views(lines@) + (seq![line@] + spec_split_lines(v@.skip(next as int))));
            }
            lines.push(line);
            start = next;
            i = next;
        } else {
            i = i + 1;
        }
    }
    let ghost rest = v@.skip(start as int);
    if start < n {
        let line = string_from_range(&v, start, n);
        proof {
            assert forall|j: int| 0 <= j < rest.len() implies !is_line_break(#[trigger] rest[j]) by {
                assert(rest[j] == v@[start + j]);
            }
            lemma_line_end_at(rest, rest.len() as int);
            assert(rest =~= line@);
            assert(views(lines@.push(line)) =~= views(lines@) + seq![line@]);
        }
        lines.push(line);
    } else {
        assert(rest.len() == 0);
        assert(views(lines@) + spec_split_lines(rest) =~= views(lines@));
    }
    lines
}

/// A physical line that continues the previous one: it starts with a single
/// space or tab.
pub open spec fn is_continuation(l: Seq<char>) -> bool {
    l.len() > 0 && (l[0] == ' ' || l[0] == '\t')
}

/// Logical lines from physical ones: each continuation line, with its one
/// leading whitespace character removed, is appended to the line before it;
/// a continuation with no line before it stands as a line of its own.
pub open spec fn spec_unfold_lines(raw: Seq<Seq<char>>) -> Seq<Seq<char>>
    decreases raw.len(),
{
    if raw.len() == 0 {
        seq![]
    } else {
        let prev = spec_unfold_lines(raw.drop_last());
        let l = raw.last();
        if is_continuation(l) && prev.len() > 0 {
            prev.update(prev.len() - 1, prev.last() + l.drop_first())
        } else {
            prev.push(l)
        }
    }
}

/// The logical lines of `text`.
pub open spec fn spec_unfold(text: Seq<char>) -> Seq<Seq<char>> {
    spec_unfold_lines(spec_split_lines(text))
}

/// Reverses line folding: a line that starts with a single space or tab
/// is a continuation of the previous line, with that one leading
/// whitespace character removed (RFC 5545 section 3.1).
pub fn unfold(text: &str) -> (lines: Vec<String>)
    ensures
        views(lines@) == spec_unfold(text@),
{
    let raws = split_lines(text);
    let mut lines: Vec<String> = Vec::new();
    let mut r: usize = 0;
    while r < raws.len()
        invariant
            0 <= r <= raws.len(),
            views(raws@) == spec_split_lines(text@),
            views(lines@) == spec_unfold_lines(views(raws@).take(r as int)),
        decreases raws.len() - r,
    {
        let raw = chars_of(raws[r].as_str());
        let ghost before = views(lines@);
        proof {
            assert(views(raws@).take(r + 1).drop_last() =~= views(raws@).take(r as int));
            assert(views(raws@).take(r + 1).last() == raw@);
        }
        let is_cont = raw.len() > 0 && (raw[0] == ' ' || raw[0] == '\t');
        if is_cont && lines.len() > 0 {
            let mut last = lines.pop().unwrap();
            append_range(&mut last, &raw, 1, raw.len());
            proof {
                assert(raw@.subrange(1, raw@.len() as int) =~= raw@.drop_first());
            }
            lines.push(last);
            proof {
                assert(views(lines@) =~= before.update(before.len() - 1, before.last() + raw@.drop_first()));
            }
        } else {
            let line = string_from_range(&raw, 0, raw.len());
            lines.push(line);
            proof {
                assert(raw@.subrange(0, raw@.len() as int) =~= raw@);
                assert(views(lines@) =~= before.push(raw@));
            }
        }
        r += 1;
    }
    proof {
        assert(views(raws@).take(r as int) =~= views(raws@));
    }
    lines
}

/// `l` holds no line-break character.
pub open spec fn no_line_break(l: Seq<char>) -> bool {
    forall|i: int| 0 <= i < l.len() ==> !is_line_break(#[trigger] l[i])
}

/// A line terminator that `split_lines` accepts: `\r\n`, `\n` or `\r`.
pub open spec fn is_terminator(t: Seq<char>) -> bool {
    t == seq!['\r', '\n'] || t == seq!['\n'] || t == seq!['\r']
}

/// `lines` written one after the other, each followed by `t`.
pub open spec fn join_lines(lines: Seq<Seq<char>>, t: Seq<char>) -> Seq<char>
    decreases lines.len(),
{
    if lines.len() == 0 {
        seq![]
    } else {
        lines[0] + t + join_lines(lines.drop_first(), t)
    }
}

/// No physical line holds a line break.
pub proof fn law_split_lines_have_no_breaks(s: Seq<char>)
    ensures
        forall|i: int| 0 <= i < spec_split_lines(s).len() ==> no_line_break(#[trigger] spec_split_lines(s)[i]),
    decreases s.len(),
{
    if s.len() > 0 {
        lemma_line_end_bounds(s);
        let k = line_end(s);
        if k < s.len() {
            let rest = s.skip(k + terminator_len(s, k));
            law_split_lines_have_no_breaks(rest);
            let first = s.take(k);
            assert(no_line_break(first)) by {
                assert forall|i: int| 0 <= i < first.len() implies !is_line_break(#[trigger] first[i]) by {
                    assert(first[i] == s[i]);
                }
            }
            assert forall|i: int| 0 <= i < spec_split_lines(s).len() implies no_line_break(#[trigger] spec_split_lines(s)[i]) by {
                if i > 0 {
                    assert(spec_split_lines(s)[i] == spec_split_lines(rest)[i - 1]);
                }
            }
        }
    }
}

/// Lines written with any one accepted terminator split back into the same
/// lines, whichever terminator was used.
pub proof fn law_split_lines_of_joined(lines: Seq<Seq<char>>, t: Seq<char>)
    requires
        is_terminator(t),
        forall|i: int| 0 <= i < lines.len() ==> no_line_break(#[trigger] lines[i]),
    ensures
        spec_split_lines(join_lines(lines, t)) == lines,
    decreases lines.len(),
{
    if lines.len() == 0 {
        assert(spec_split_lines(join_lines(lines, t)) =~= lines);
    } else {
        let l0 = lines[0];
        let tail = lines.drop_first();
        let rest = join_lines(tail, t);
        let s = join_lines(lines, t);
        assert(s == l0 + t + rest);
        assert forall|i: int| 0 <= i < tail.len() implies no_line_break(#[trigger] tail[i]) by {
            assert(tail[i] == lines[i + 1]);
        }
        law_split_lines_of_joined(tail, t);
        let k = l0.len() as int;
        assert(no_line_break(l0)) by {
            assert(no_line_break(lines[0]));
        }
        assert forall|j: int| 0 <= j < k implies !is_line_break(#[trigger] s[j]) by {
            assert(s[j] == l0[j]);
        }
        assert(s[k] == t[0]);
        lemma_line_end_at(s, k);
        if rest.len() > 0 {
            assert(tail.len() > 0);
            if tail[0].len() > 0 {
                assert(no_line_break(tail[0]));
                assert(rest[0] == tail[0][0]);
                assert(!is_line_break(tail[0][0]));
            } else {
                assert(rest[0] == t[0]);
            }
            assert(rest[0] != '\n' || t == seq!['\n'] || t == seq!['\r', '\n']);
            assert(s[k + t.len()] == rest[0]);
        }
        if t.len() == 2 {
            assert(s[k + 1] == t[1]);
        }
        assert(terminator_len(s, k) == t.len());
        assert(s.take(k) =~= l0);
        assert(s.skip(k + t.len()) =~= rest);
        assert(seq![l0] + tail =~= lines);
    }
}

/// The physical lines of one logical line written in chunks: the first
/// chunk as it is, every later chunk `j` behind its whitespace `leads[j]`.
pub open spec fn fold_chunks(chunks: Seq<Seq<char>>, leads: Seq<char>) -> Seq<Seq<char>> {
    Seq::new(chunks.len(), |i: int| if i == 0 { chunks[0] } else { seq![leads[i]] + chunks[i] })
}

/// `leads` gives a space or a tab to every chunk but the first of `n` chunks.
pub open spec fn valid_leads(leads: Seq<char>, n: int) -> bool {
    leads.len() == n && forall|j: int| 0 < j < n ==> #[trigger] leads[j] == ' ' || leads[j] == '\t'
}

/// The chunks of a logical line put back together.
pub open spec fn concat_chunks(chunks: Seq<Seq<char>>) -> Seq<char>
    decreases chunks.len(),
{
    if chunks.len() == 0 {
        seq![]
    } else {
        concat_chunks(chunks.drop_last()) + chunks.last()
    }
}

/// The physical lines of a document whose logical lines are each written in
/// chunks.
pub open spec fn fold_document(doc: Seq<Seq<Seq<char>>>, leads: Seq<Seq<char>>) -> Seq<Seq<char>>
    decreases doc.len(),
{
    if doc.len() == 0 {
        seq![]
    } else {
        fold_document(doc.drop_last(), leads.drop_last()) + fold_chunks(doc.last(), leads.last())
    }
}

/// A document of chunked logical lines that can be written folded with the
/// whitespace `leads`: every logical line has a chunk, none after the first
/// starts with a space or tab (it would read as a continuation), and every
/// later chunk is led by a space or a tab.
pub open spec fn foldable(doc: Seq<Seq<Seq<char>>>, leads: Seq<Seq<char>>) -> bool {
    &&& leads.len() == doc.len()
    &&& forall|i: int| 0 <= i < doc.len() ==> #[trigger] doc[i].len() >= 1
    &&& forall|i: int| 0 < i < doc.len() ==> !is_continuation(#[trigger] doc[i][0])
    &&& forall|i: int| 0 <= i < doc.len() ==> valid_leads(#[trigger] leads[i], doc[i].len() as int)
}

/// Unfolding lines that end with one folded logical line adds that line,
/// whole, after the unfolding of what comes before.
pub proof fn lemma_unfold_folded_line(before: Seq<Seq<char>>, chunks: Seq<Seq<char>>, leads: Seq<char>)
    requires
        chunks.len() >= 1,
        valid_leads(leads, chunks.len() as int),
        before.len() == 0 || !is_continuation(chunks[0]),
    ensures
        spec_unfold_lines(before + fold_chunks(chunks, leads)) == spec_unfold_lines(before).push(concat_chunks(chunks)),
    decreases chunks.len(),
{
    let all = before + fold_chunks(chunks, leads);
    if chunks.len() == 1 {
        assert(all.drop_last() =~= before);
        assert(concat_chunks(chunks) =~= chunks[0]) by {
            assert(chunks.drop_last() =~= Seq::<Seq<char>>::empty());
            assert(concat_chunks(chunks.drop_last()) =~= Seq::<char>::empty());
            assert(Seq::<char>::empty() + chunks.last() =~= chunks[0]);
        }
    } else {
        let init = chunks.drop_last();
        assert(valid_leads(leads.drop_last(), init.len() as int)) by {
            assert forall|j: int| 0 < j < init.len() implies #[trigger] leads.drop_last()[j] == ' ' || leads.drop_last()[j] == '\t' by {
                assert(leads.drop_last()[j] == leads[j]);
            }
        }
        lemma_unfold_folded_line(before, init, leads.drop_last());
        assert(all.drop_last() =~= before + fold_chunks(init, leads.drop_last()));
        let l = all.last();
        assert(l == seq![leads.last()] + chunks.last());
        assert(leads[leads.len() - 1] == ' ' || leads[leads.len() - 1] == '\t');
        assert(l.drop_first() =~= chunks.last());
        let prev = spec_unfold_lines(before).push(concat_chunks(init));
        assert(prev.update(prev.len() - 1, prev.last() + l.drop_first())
            =~= spec_unfold_lines(before).push(concat_chunks(chunks)));
    }
}

/// Unfolding the physical lines of a folded document gives back its logical
/// lines.
pub proof fn law_unfold_lines_of_folded(doc: Seq<Seq<Seq<char>>>, leads: Seq<Seq<char>>)
    requires
        foldable(doc, leads),
    ensures
        spec_unfold_lines(fold_document(doc, leads)) == doc.map_values(|c: Seq<Seq<char>>| concat_chunks(c)),
    decreases doc.len(),
{
    if doc.len() == 0 {
        assert(spec_unfold_lines(fold_document(doc, leads)) =~= doc.map_values(|c: Seq<Seq<char>>| concat_chunks(c)));
    } else {
        let init = doc.drop_last();
        let init_leads = leads.drop_last();
        assert(foldable(init, init_leads)) by {
            assert forall|i: int| 0 <= i < init.len() implies valid_leads(#[trigger] init_leads[i], init[i].len() as int) by {
                assert(init[i] == doc[i]);
                assert(init_leads[i] == leads[i]);
            }
            assert forall|i: int| 0 <= i < init.len() implies #[trigger] init[i].len() >= 1 by {
                assert(init[i] == doc[i]);
            }
            assert forall|i: int| 0 < i < init.len() implies !is_continuation(#[trigger] init[i][0]) by {
                assert(init[i] == doc[i]);
            }
        }
        law_unfold_lines_of_folded(init, init_leads);
        assert(doc.last().len() >= 1) by {
            assert(doc[doc.len() - 1].len() >= 1);
        }
        assert(valid_leads(leads.last(), doc.last().len() as int)) by {
            assert(valid_leads(leads[leads.len() - 1], doc[doc.len() - 1].len() as int));
        }
        if init.len() > 0 {
            assert(!is_continuation(doc[doc.len() - 1][0]));
        } else {
            assert(fold_document(init, init_leads) =~= Seq::<Seq<char>>::empty());
        }
        lemma_unfold_folded_line(fold_document(init, init_leads), doc.last(), leads.last());
        assert(doc.map_values(|c: Seq<Seq<char>>| concat_chunks(c))
            =~= init.map_values(|c: Seq<Seq<char>>| concat_chunks(c)).push(concat_chunks(doc.last())));
    }
}

/// Every chunk of every logical line of `doc` is free of line breaks.
pub open spec fn chunks_have_no_breaks(doc: Seq<Seq<Seq<char>>>) -> bool {
    forall|i: int, j: int| 0 <= i < doc.len() && 0 <= j < doc[i].len() ==> no_line_break(#[trigger] doc[i][j])
}

/// Folding chunks without line breaks gives physical lines without line
/// breaks.
proof fn lemma_folded_lines_have_no_breaks(doc: Seq<Seq<Seq<char>>>, leads: Seq<Seq<char>>)
    requires
        foldable(doc, leads),
        chunks_have_no_breaks(doc),
    ensures
        forall|i: int| 0 <= i < fold_document(doc, leads).len() ==> no_line_break(#[trigger] fold_document(doc, leads)[i]),
    decreases doc.len(),
{
    if doc.len() > 0 {
        let init = doc.drop_last();
        let init_leads = leads.drop_last();
        assert(foldable(init, init_leads)) by {
            assert forall|i: int| 0 <= i < init.len() implies valid_leads(#[trigger] init_leads[i], init[i].len() as int) by {
                assert(init[i] == doc[i]);
                assert(init_leads[i] == leads[i]);
            }
            assert forall|i: int| 0 <= i < init.len() implies #[trigger] init[i].len() >= 1 by {
                assert(init[i] == doc[i]);
            }
            assert forall|i: int| 0 < i < init.len() implies !is_continuation(#[trigger] init[i][0]) by {
                assert(init[i] == doc[i]);
            }
        }
        assert(chunks_have_no_breaks(init)) by {
            assert forall|i: int, j: int| 0 <= i < init.len() && 0 <= j < init[i].len() implies no_line_break(#[trigger] init[i][j]) by {
                assert(init[i] == doc[i]);
            }
        }
        lemma_folded_lines_have_no_breaks(init, init_leads);
        let p = fold_document(init, init_leads);
        let f = fold_chunks(doc.last(), leads.last());
        assert(valid_leads(leads[leads.len() - 1], doc[doc.len() - 1].len() as int));
        assert forall|i: int| 0 <= i < fold_document(doc, leads).len() implies no_line_break(#[trigger] fold_document(doc, leads)[i]) by {
            if i >= p.len() {
                let j = i - p.len();
                assert(fold_document(doc, leads)[i] == f[j]);
                assert(no_line_break(doc[doc.len() - 1][j]));
                if j > 0 {
                    let l = f[j];
                    assert(leads.last()[j] == ' ' || leads.last()[j] == '\t');
                    assert forall|m: int| 0 <= m < l.len() implies !is_line_break(#[trigger] l[m]) by {
                        if m > 0 {
                            assert(l[m] == doc.last()[j][m - 1]);
                        }
                    }
                }
            } else {
                assert(fold_document(doc, leads)[i] == p[i]);
            }
        }
    }
}

/// A document written folded, each continuation led by a space or a tab, with
/// any one accepted line terminator, unfolds back into its logical lines.
pub proof fn law_unfold_reverses_folding(doc: Seq<Seq<Seq<char>>>, leads: Seq<Seq<char>>, t: Seq<char>)
    requires
        foldable(doc, leads),
        chunks_have_no_breaks(doc),
        is_terminator(t),
    ensures
        spec_unfold(join_lines(fold_document(doc, leads), t)) == doc.map_values(|c: Seq<Seq<char>>| concat_chunks(c)),
{
    lemma_folded_lines_have_no_breaks(doc, leads);
    law_split_lines_of_joined(fold_document(doc, leads), t);
    law_unfold_lines_of_folded(doc, leads);
}

/// Unfolding lines without breaks gives lines without breaks.
proof fn lemma_unfold_keeps_no_breaks(raw: Seq<Seq<char>>)
    requires
        forall|i: int| 0 <= i < raw.len() ==> no_line_break(#[trigger] raw[i]),
    ensures
        forall|i: int| 0 <= i < spec_unfold_lines(raw).len() ==> no_line_break(#[trigger] spec_unfold_lines(raw)[i]),
    decreases raw.len(),
{
    if raw.len() > 0 {
        let init = raw.drop_last();
        assert forall|i: int| 0 <= i < init.len() implies no_line_break(#[trigger] init[i]) by {
            assert(init[i] == raw[i]);
        }
        lemma_unfold_keeps_no_breaks(init);
        let prev = spec_unfold_lines(init);
        let l = raw.last();
        assert(no_line_break(raw[raw.len() - 1]));
        if is_continuation(l) && prev.len() > 0 {
            let joined = prev.last() + l.drop_first();
            assert(no_line_break(prev[prev.len() - 1]));
            assert forall|m: int| 0 <= m < joined.len() implies !is_line_break(#[trigger] joined[m]) by {
                if m < prev.last().len() {
                    assert(joined[m] == prev.last()[m]);
                } else {
                    assert(joined[m] == l[m - prev.last().len() + 1]);
                }
            }
        }
    }
}

/// No logical line holds a line break.
pub proof fn law_unfolded_lines_have_no_breaks(text: Seq<char>)
    ensures
        forall|i: int| 0 <= i < spec_unfold(text).len() ==> no_line_break(#[trigger] spec_unfold(text)[i]),
{
    law_split_lines_have_no_breaks(text);
    lemma_unfold_keeps_no_breaks(spec_split_lines(text));
}

/// Lines of which none after the first continues the one before are their
/// own unfolding.
pub proof fn law_unfold_lines_without_continuations(raw: Seq<Seq<char>>)
    requires
        forall|i: int| 0 < i < raw.len() ==> !is_continuation(#[trigger] raw[i]),
    ensures
        spec_unfold_lines(raw) == raw,
    decreases raw.len(),
{
    if raw.len() > 0 {
        let init = raw.drop_last();
        assert forall|i: int| 0 < i < init.len() implies !is_continuation(#[trigger] init[i]) by {
            assert(init[i] == raw[i]);
        }
        law_unfold_lines_without_continuations(init);
        if raw.len() > 1 {
            assert(!is_continuation(raw[raw.len() - 1]));
        }
        assert(init.push(raw.last()) =~= raw);
    }
}

/// Text that ends where a line ends: empty, or ending with `\n`.
pub open spec fn ends_a_line(a: Seq<char>) -> bool {
    a.len() == 0 || a.last() == '\n'
}

/// Text whose first line is no continuation: empty, or starting with neither
/// a space nor a tab.
pub open spec fn starts_a_line(b: Seq<char>) -> bool {
    b.len() == 0 || (b[0] != ' ' && b[0] != '\t')
}

/// Text that ends a line, followed by more text, splits into the lines of
/// each in turn.
pub proof fn law_split_lines_concat(a: Seq<char>, b: Seq<char>)
    requires
        ends_a_line(a),
    ensures
        spec_split_lines(a + b) == spec_split_lines(a) + spec_split_lines(b),
    decreases a.len(),
{
    if a.len() == 0 {
        assert(a + b =~= b);
        assert(spec_split_lines(a) + spec_split_lines(b) =~= spec_split_lines(b));
    } else {
        let s = a + b;
        lemma_line_end_bounds(a);
        let k = line_end(a);
        assert(is_line_break(a[a.len() - 1]));
        assert(k < a.len());
        assert forall|j: int| 0 <= j < k implies !is_line_break(#[trigger] s[j]) by {
            assert(s[j] == a[j]);
        }
        assert(s[k] == a[k]);
        lemma_line_end_at(s, k);
        if k + 1 < a.len() {
            assert(s[k + 1] == a[k + 1]);
        }
        let tl = terminator_len(a, k);
        assert(terminator_len(s, k) == tl);
        let rest = a.skip(k + tl);
        assert(ends_a_line(rest)) by {
            if rest.len() > 0 {
                assert(rest.last() == a.last());
            }
        }
        law_split_lines_concat(rest, b);
        assert(s.take(k) =~= a.take(k));
        assert(s.skip(k + tl) =~= rest + b);
        assert(seq![a.take(k)] + (spec_split_lines(rest) + spec_split_lines(b))
            =~= (seq![a.take(k)] + spec_split_lines(rest)) + spec_split_lines(b));
    }
}

/// Unfolding non-empty lines gives at least one line.
proof fn lemma_unfold_lines_nonempty(raw: Seq<Seq<char>>)
    requires
        raw.len() > 0,
    ensures
        spec_unfold_lines(raw).len() > 0,
{
}

/// Lines followed by lines whose first is no continuation unfold into the
/// logical lines of each in turn.
pub proof fn law_unfold_lines_concat(x: Seq<Seq<char>>, y: Seq<Seq<char>>)
    requires
        y.len() == 0 || !is_continuation(y[0]),
    ensures
        spec_unfold_lines(x + y) == spec_unfold_lines(x) + spec_unfold_lines(y),
    decreases y.len(),
{
    if y.len() == 0 {
        assert(x + y =~= x);
        assert(spec_unfold_lines(x) + spec_unfold_lines(y) =~= spec_unfold_lines(x));
    } else {
        let init = y.drop_last();
        if init.len() > 0 {
            assert(init[0] == y[0]);
        }
        law_unfold_lines_concat(x, init);
        assert((x + y).drop_last() =~= x + init);
        assert((x + y).last() == y.last());
        let ux = spec_unfold_lines(x);
        let ui = spec_unfold_lines(init);
        let l = y.last();
        if init.len() > 0 {
            lemma_unfold_lines_nonempty(init);
        } else {
            assert(l == y[0]);
        }
        if is_continuation(l) && ui.len() > 0 {
            assert((ux + ui).update(ux.len() + ui.len() - 1, (ux + ui).last() + l.drop_first())
                =~= ux + ui.update(ui.len() - 1, ui.last() + l.drop_first()));
        } else {
            assert((ux + ui).push(l) =~= ux + ui.push(l));
        }
    }
}

/// The first physical line of text that starts a line is no continuation.
proof fn lemma_first_line_starts(b: Seq<char>)
    requires
        starts_a_line(b),
    ensures
        spec_split_lines(b).len() == 0 || !is_continuation(spec_split_lines(b)[0]),
{
    if b.len() > 0 {
        lemma_line_end_bounds(b);
        let k = line_end(b);
        if k < b.len() {
            let first = b.take(k);
            assert(spec_split_lines(b)[0] == first);
            if first.len() > 0 {
                assert(first[0] == b[0]);
            }
        }
    }
}

/// Text that ends a line, followed by text that starts one, unfolds into the
/// logical lines of each in turn.
pub proof fn law_unfold_concat(a: Seq<char>, b: Seq<char>)
    requires
        ends_a_line(a),
        starts_a_line(b),
    ensures
        spec_unfold(a + b) == spec_unfold(a) + spec_unfold(b),
{
    law_split_lines_concat(a, b);
    lemma_first_line_starts(b);
    law_unfold_lines_concat(spec_split_lines(a), spec_split_lines(b));
}

} // verus!
