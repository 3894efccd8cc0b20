//! Content lines: `NAME;PARAM=VAL;...:VALUE`.
use vstd::prelude::*;
use crate::text::{
    chars_of, string_from_range, vec_from_range, index_of, lemma_index_of_at, lemma_index_of_bounds,
    find_char, vec_views,
};
use crate::escape::{spec_unescape, unescape_from, spec_escape, law_unescape_inverts_escape};

verus! {

/// A single unfolded, parsed content line: `NAME;PARAM=VAL;...:VALUE`.
#[derive(Debug, Clone, PartialEq)]
pub struct Property {
    pub name: String,
    pub params: Vec<(String, String)>,
    pub value: String,
}

/// What a `Property` holds, as characters.
pub struct PropertyView {
    pub name: Seq<char>,
    pub params: Seq<(Seq<char>, Seq<char>)>,
    pub value: Seq<char>,
}

/// The character views of a list of parameters.
pub open spec fn param_views(params: Seq<(String, String)>) -> Seq<(Seq<char>, Seq<char>)> {
    params.map_values(|p: (String, String)| (p.0@, p.1@))
}

impl View for Property {
    type V = PropertyView;

    open spec fn view(&self) -> PropertyView {
        PropertyView { name: self.name@, params: param_views(self.params@), value: self.value@ }
    }
}

/// The number of `"` characters in `s`.
pub open spec fn quote_count(s: Seq<char>) -> nat
    decreases s.len(),
{
    if s.len() == 0 {
        0
    } else {
        quote_count(s.drop_last()) + if s.last() == '"' { 1nat } else { 0nat }
    }
}

/// `s[k]` is a colon outside any quoted parameter value: an even number of
/// `"` precede it.
pub open spec fn is_value_colon(s: Seq<char>, k: int) -> bool {
    0 <= k < s.len() && s[k] == ':' && quote_count(s.take(k)) % 2 == 0
}

/// `k` is the first colon of `s` outside quotes.
pub open spec fn is_first_value_colon(s: Seq<char>, k: int) -> bool {
    is_value_colon(s, k) && forall|j: int| 0 <= j < k ==> !#[trigger] is_value_colon(s, j)
}

/// The colon that separates the name and parameters of a content line from
/// its value, if the line has one.
pub open spec fn value_colon(s: Seq<char>) -> Option<int> {
    if exists|k: int| is_first_value_colon(s, k) {
        Some(choose|k: int| is_first_value_colon(s, k))
    } else {
        None
    }
}

/// Where the first segment of a parameter list `s` ends: at its first `;`,
/// unless the segment's value, just after its first `=`, opens with `"`; then
/// the semicolons up to the closing `"` belong to the value, and the segment
/// ends at the first `;` after it, or at the end of `s` when the quote is not
/// closed.
pub open spec fn param_segment_end(s: Seq<char>) -> int {
    let e = index_of(s, '=');
    let semi = index_of(s, ';');
    if e < semi && e + 1 < s.len() && s[e + 1] == '"' {
        let close = e + 2 + index_of(s.skip(e + 2), '"');
        if close < s.len() {
            close + index_of(s.skip(close), ';')
        } else {
            s.len() as int
        }
    } else {
        semi
    }
}

/// `param_segment_end` lies within `s`.
pub proof fn lemma_param_segment_end_bounds(s: Seq<char>)
    ensures
        0 <= param_segment_end(s) <= s.len(),
{
    lemma_index_of_bounds(s, '=');
    lemma_index_of_bounds(s, ';');
    let e = index_of(s, '=');
    if e < index_of(s, ';') && e + 1 < s.len() && s[e + 1] == '"' {
        lemma_index_of_bounds(s.skip(e + 2), '"');
        let close = e + 2 + index_of(s.skip(e + 2), '"');
        if close < s.len() {
            lemma_index_of_bounds(s.skip(close), ';');
        }
    }
}

/// The segments of a parameter list, each ended by `param_segment_end`:
/// always at least one, empty ones included.
pub open spec fn split_param_segments(s: Seq<char>) -> Seq<Seq<char>>
    decreases s.len(),
{
    let k = param_segment_end(s);
    if k < s.len() {
        proof {
            lemma_param_segment_end_bounds(s);
        }
        seq![s.take(k)] + split_param_segments(s.skip(k + 1))
    } else {
        seq![s]
    }
}

/// A parameter value with one pair of surrounding double quotes removed.
pub open spec fn strip_quotes(v: Seq<char>) -> Seq<char> {
    if v.len() >= 2 && v[0] == '"' && v.last() == '"' {
        v.subrange(1, v.len() - 1)
    } else {
        v
    }
}

/// A `KEY=VALUE` segment split at its first `=`; a segment without `=` is
/// no parameter.
pub open spec fn spec_parse_param(seg: Seq<char>) -> Option<(Seq<char>, Seq<char>)> {
    let k = index_of(seg, '=');
    if k < seg.len() {
        Some((seg.take(k), strip_quotes(seg.skip(k + 1))))
    } else {
        None
    }
}

/// The parameters among `segs`, in order, skipping segments without `=`.
pub open spec fn spec_params(segs: Seq<Seq<char>>) -> Seq<(Seq<char>, Seq<char>)>
    decreases segs.len(),
{
    if segs.len() == 0 {
        seq![]
    } else {
        let before = spec_params(segs.drop_last());
        match spec_parse_param(segs.last()) {
            Some(p) => before.push(p),
            None => before,
        }
    }
}

/// The parameters of the parameter list that follows the name in `head`,
/// none when the name is all of `head`.
pub open spec fn head_params(head: Seq<char>) -> Seq<(Seq<char>, Seq<char>)> {
    let n = index_of(head, ';');
    if n < head.len() {
        spec_params(split_param_segments(head.skip(n + 1)))
    } else {
        seq![]
    }
}

/// A content line read as name, parameters and value. The text before the
/// first colon outside quotes is the head: its text up to the first `;` is
/// the name, which must not be empty, and the rest is the parameter list,
/// split into segments of which those with `=` are parameters. The text after
/// that colon, unescaped, is the value.
pub open spec fn spec_parse_property(line: Seq<char>) -> Option<PropertyView> {
    match value_colon(line) {
        None => None,
        Some(k) => {
            let head = line.take(k);
            let n = index_of(head, ';');
            if n == 0 {
                None
            } else {
                Some(
                    PropertyView {
                        name: head.take(n),
                        params: head_params(head),
                        value: spec_unescape(line.skip(k + 1)),
                    },
                )
            }
        }
    }
}

/// The view of an optional property.
pub open spec fn option_view(p: Option<Property>) -> Option<PropertyView> {
    match p {
        Some(p) => Some(p@),
        None => None,
    }
}

/// The first colon of `v` outside quotes, if any.
fn find_value_colon(v: &Vec<char>) -> (r: Option<usize>)
    ensures
        r matches Some(k) ==> is_first_value_colon(v@, k as int),
        r is None ==> forall|j: int| !#[trigger] is_value_colon(v@, j),
{
    let n = v.len();
    let mut in_quotes = false;
    let mut i: usize = 0;
    while i < n
        invariant
            n == v.len(),
            i <= n,
            in_quotes == (quote_count(v@.take(i as int)) % 2 == 1),
            forall|j: int| 0 <= j < i ==> !#[trigger] is_value_colon(v@, j),
        decreases n - i,
    {
        proof {
            assert(v@.take(i + 1).drop_last() =~= v@.take(i as int));
        }
        let c = v[i];
        if c == '"' {
            in_quotes = !in_quotes;
        } else if c == ':' && !in_quotes {
            return Some(i);
        }
        i += 1;
    }
    None
}

/// The first colon outside quotes is unique.
proof fn lemma_value_colon_at(s: Seq<char>, k: int)
    requires
        is_first_value_colon(s, k),
    ensures
        value_colon(s) == Some(k),
{
    let e = choose|e: int| is_first_value_colon(s, e);
    assert(is_first_value_colon(s, e));
    if e < k {
        assert(is_value_colon(s, e));
    } else if e > k {
        assert(is_value_colon(s, k));
    }
}

/// The parameter that the segment `seg` holds, if it has an `=`.
fn parse_param(seg: &Vec<char>) -> (r: Option<(String, String)>)
    ensures
        r matches Some(p) ==> spec_parse_param(seg@) == Some((p.0@, p.1@)),
        r is None ==> spec_parse_param(seg@) is None,
{
    let n = seg.len();
    let mut k: usize = 0;
    while k < n && seg[k] != '='
        invariant
            n == seg.len(),
            k <= n,
            forall|j: int| 0 <= j < k ==> #[trigger] seg@[j] != '=',
        decreases n - k,
    {
        k += 1;
    }
    proof {
        lemma_index_of_at(seg@, '=', k as int);
    }
    if k == n {
        return None;
    }
    let key = string_from_range(seg, 0, k);
    let mut from = k + 1;
    let mut to = n;
    if to - from >= 2 && seg[from] == '"' && seg[to - 1] == '"' {
        from = from + 1;
        to = to - 1;
    }
    let val = string_from_range(seg, from, to);
    proof {
        assert(seg@.take(k as int) =~= key@);
        let raw = seg@.skip(k + 1);
        assert(strip_quotes(raw) =~= val@);
    }
    Some((key, val))
}

/// Parses one unfolded content line into name, parameters, and value.
///
/// The tricky part is finding the colon that separates the parameter
/// list from the value: parameter values can be quoted, and a quoted
/// value is allowed to contain colons and semicolons of its own (this
/// shows up in things like `ALTREP` and `TZID` with a URI value).
pub fn parse_property(line: &str) -> (r: Option<Property>)
    ensures
        option_view(r) == spec_parse_property(line@),
{
    let v = chars_of(line);
    let k = match find_value_colon(&v) {
        Some(k) => k,
        None => {
            proof {
                if exists|k: int| is_first_value_colon(v@, k) {
                    let k = choose|k: int| is_first_value_colon(v@, k);
                    assert(is_value_colon(v@, k));
                }
            }
            return None;
        },
    };
    let ghost head = v@.take(k as int);
    proof {
        lemma_value_colon_at(v@, k as int);
        assert(head =~= v@.subrange(0, k as int));
    }
    let n = find_char(&v, 0, k, ';');
    if n == 0 {
        return None;
    }
    let name = string_from_range(&v, 0, n);
    proof {
        assert(head.take(n as int) =~= name@);
    }
    let mut params: Vec<(String, String)> = Vec::new();
    if n < k {
        let segs = split_param_list(&v, n + 1, k);
        proof {
            assert(head.skip(n + 1) =~= v@.subrange(n + 1, k as int));
        }
        let mut j: usize = 0;
        let ghost all = vec_views(segs@);
        while j < segs.len()
            invariant
                j <= segs.len(),
                all == vec_views(segs@),
                param_views(params@) == spec_params(all.take(j as int)),
            decreases segs.len() - j,
        {
            let p = parse_param(&segs[j]);
            proof {
                assert(all.take(j + 1).drop_last() =~= all.take(j as int));
                assert(all.take(j + 1).last() == segs@[j as int]@);
            }
            match p {
                Some(p) => {
                    proof {
                        assert(param_views(params@.push(p)) =~= param_views(params@).push((p.0@, p.1@)));
                    }
                    params.push(p);
                },
                None => {},
            }
            j += 1;
        }
        proof {
            assert(all.take(j as int) =~= all);
        }
    } else {
        assert(param_views(params@) =~= Seq::<(Seq<char>, Seq<char>)>::empty());
    }
    let value = unescape_from(&v, k + 1);
    Some(Property { name, params, value })
}

/// Where the first segment of the parameter list `v[from..to]` ends, counted
/// from the start of `v`.
fn param_segment_end_of(v: &Vec<char>, from: usize, to: usize) -> (k: usize)
    requires
        from <= to <= v.len(),
    ensures
        k == from + param_segment_end(v@.subrange(from as int, to as int)),
        from <= k <= to,
{
    let ghost s = v@.subrange(from as int, to as int);
    proof {
        lemma_param_segment_end_bounds(s);
    }
    let e = find_char(v, from, to, '=');
    let semi = find_char(v, from, to, ';');
    if e < semi && e + 1 < to && v[e + 1] == '"' {
        let close = find_char(v, e + 2, to, '"');
        proof {
            assert(s[e + 1 - from] == v@[e + 1]);
            assert(s.skip(e + 2 - from) =~= v@.subrange(e + 2, to as int));
        }
        if close < to {
            let end = find_char(v, close, to, ';');
            proof {
                assert(s.skip(close - from) =~= v@.subrange(close as int, to as int));
            }
            end
        } else {
            to
        }
    } else {
        proof {
            if e < semi && e + 1 < to {
                assert(s[e + 1 - from] == v@[e + 1]);
            }
        }
        semi
    }
}

/// The segments of the parameter list `v[from..to]`.
fn split_param_list(v: &Vec<char>, from: usize, to: usize) -> (pieces: Vec<Vec<char>>)
    requires
        from <= to <= v.len(),
    ensures
        vec_views(pieces@) == split_param_segments(v@.subrange(from as int, to as int)),
{
    let mut pieces: Vec<Vec<char>> = Vec::new();
    let mut start = from;
    assert(vec_views(pieces@) + split_param_segments(v@.subrange(start as int, to as int))
        =~= split_param_segments(v@.subrange(from as int, to as int)));
    loop
        invariant
            from <= start <= to <= v.len(),
            vec_views(pieces@) + split_param_segments(v@.subrange(start as int, to as int))
                == split_param_segments(v@.subrange(from as int, to as int)),
        decreases to - start,
    {
        let ghost rest = v@.subrange(start as int, to as int);
        let end = param_segment_end_of(v, start, to);
        let piece = vec_from_range(v, start, end);
        proof {
            assert(vec_views(pieces@.push(piece)) =~= vec_views(pieces@).push(piece@));
        }
        if end >= to {
            proof {
                assert(piece@ =~= rest);
                assert(vec_views(pieces@).push(piece@) =~= vec_views(pieces@) + split_param_segments(rest));
            }
            pieces.push(piece);
            return pieces;
        }
        proof {
            let k = end - start;
            assert(rest.take(k) =~= piece@);
            assert(rest.skip(k + 1) =~= v@.subrange(end + 1, to as int));
            assert(vec_views(pieces@).push(piece@) + split_param_segments(v@.subrange(end + 1, to as int))
                =~= vec_views(pieces@) + (seq![piece@] + split_param_segments(v@.subrange(end + 1, to as int))));
        }
        pieces.push(piece);
        start = end + 1;
    }
}

/// The number of quotes is additive over concatenation.
proof fn lemma_quote_count_add(a: Seq<char>, b: Seq<char>)
    ensures
        quote_count(a + b) == quote_count(a) + quote_count(b),
    decreases b.len(),
{
    if b.len() == 0 {
        assert(a + b =~= a);
    } else {
        lemma_quote_count_add(a, b.drop_last());
        assert((a + b).drop_last() =~= a + b.drop_last());
    }
}

/// Text without `"` has no quotes to count.
proof fn lemma_quote_count_none(a: Seq<char>)
    requires
        !a.contains('"'),
    ensures
        quote_count(a) == 0,
    decreases a.len(),
{
    if a.len() > 0 {
        assert(a.last() != '"') by {
            assert(a.contains(a[a.len() - 1]));
        }
        assert(!a.drop_last().contains('"')) by {
            if a.drop_last().contains('"') {
                let i = choose|i: int| 0 <= i < a.drop_last().len() && a.drop_last()[i] == '"';
                assert(a[i] == '"');
            }
        }
        lemma_quote_count_none(a.drop_last());
    }
}

/// Every `c` of `s` stands after an odd number of quotes: inside a quoted
/// parameter value.
pub open spec fn quoted_only(s: Seq<char>, c: char) -> bool {
    forall|j: int| 0 <= j < s.len() && s[j] == c ==> #[trigger] quote_count(s.take(j)) % 2 == 1
}

/// Text without `c` holds it only inside quotes.
proof fn lemma_quoted_only_absent(s: Seq<char>, c: char)
    requires
        !s.contains(c),
    ensures
        quoted_only(s, c),
{
    assert forall|j: int| 0 <= j < s.len() && s[j] == c implies #[trigger] quote_count(s.take(j)) % 2 == 1 by {
        assert(s.contains(s[j]));
    }
}

/// Quoted characters stay quoted behind text with an even number of quotes.
proof fn lemma_quoted_only_concat(a: Seq<char>, b: Seq<char>, c: char)
    requires
        quoted_only(a, c),
        quoted_only(b, c),
        quote_count(a) % 2 == 0,
    ensures
        quoted_only(a + b, c),
{
    let s = a + b;
    assert forall|j: int| 0 <= j < s.len() && s[j] == c implies #[trigger] quote_count(s.take(j)) % 2 == 1 by {
        if j < a.len() {
            assert(s.take(j) =~= a.take(j));
            assert(a[j] == c);
        } else {
            let i = j - a.len();
            assert(s.take(j) =~= a + b.take(i));
            lemma_quote_count_add(a, b.take(i));
            assert(b[i] == c);
        }
    }
}

/// A parameter that can be written with its value quoted and read back: a
/// name without `=`, `;`, `:` or `"`, and a value without `"` (colons and
/// semicolons are fine inside the quotes).
pub open spec fn writable_param(p: (Seq<char>, Seq<char>)) -> bool {
    &&& !p.0.contains('=')
    &&& !p.0.contains(';')
    &&& !p.0.contains(':')
    &&& !p.0.contains('"')
    &&& !p.1.contains('"')
}

/// A parameter written as the segment `NAME="VALUE"`.
pub open spec fn param_segment(p: (Seq<char>, Seq<char>)) -> Seq<char> {
    p.0 + seq!['=', '"'] + p.1 + seq!['"']
}

/// Parameters written one after the other, each behind a `;`.
pub open spec fn written_params(params: Seq<(Seq<char>, Seq<char>)>) -> Seq<char>
    decreases params.len(),
{
    if params.len() == 0 {
        seq![]
    } else {
        seq![';'] + param_segment(params[0]) + written_params(params.drop_first())
    }
}

/// A content line as it is written: the name, the parameters with quoted
/// values, a colon and the escaped value.
pub open spec fn written_property(p: PropertyView) -> Seq<char> {
    p.name + written_params(p.params) + seq![':'] + spec_escape(p.value)
}

/// A property that can be written and read back: a non-empty name without
/// `;`, `:` or `"`, and writable parameters.
pub open spec fn writable_property(p: PropertyView) -> bool {
    &&& p.name.len() > 0
    &&& !p.name.contains(';')
    &&& !p.name.contains(':')
    &&& !p.name.contains('"')
    &&& forall|i: int| 0 <= i < p.params.len() ==> writable_param(#[trigger] p.params[i])
}

/// A written parameter segment reads back as its parameter.
proof fn lemma_param_segment(p: (Seq<char>, Seq<char>))
    requires
        writable_param(p),
    ensures
        spec_parse_param(param_segment(p)) == Some(p),
{
    let seg = param_segment(p);
    let k = p.0.len() as int;
    assert forall|j: int| 0 <= j < k implies #[trigger] seg[j] != '=' by {
        assert(seg[j] == p.0[j]);
        assert(p.0.contains(p.0[j]));
    }
    assert(seg[k] == '=');
    lemma_index_of_at(seg, '=', k);
    assert(seg.take(k) =~= p.0);
    assert(seg.skip(k + 1) =~= seq!['"'] + p.1 + seq!['"']);
    assert(strip_quotes(seg.skip(k + 1)) =~= p.1);
}

/// A written parameter segment has two quotes, and its colons all stand
/// inside them.
proof fn lemma_param_segment_quotes(p: (Seq<char>, Seq<char>))
    requires
        writable_param(p),
    ensures
        quote_count(param_segment(p)) == 2,
        quoted_only(param_segment(p), ':'),
{
    let w = param_segment(p);
    let opening = p.0 + seq!['=', '"'];
    assert(w =~= opening + p.1 + seq!['"']);
    lemma_quote_count_none(p.0);
    lemma_quote_count_none(p.1);
    lemma_quote_count_add(p.0, seq!['=', '"']);
    lemma_quote_count_add(opening, p.1);
    lemma_quote_count_add(opening + p.1, seq!['"']);
    assert(quote_count(seq!['=', '"']) == 1) by {
        assert(seq!['=', '"'].drop_last() =~= seq!['=']);
        lemma_quote_count_none(seq!['=']);
    }
    assert(quote_count(seq!['"']) == 1) by {
        assert(seq!['"'].drop_last() =~= Seq::<char>::empty());
        assert(quote_count(Seq::<char>::empty()) == 0);
    }
    assert(quote_count(opening) == 1);
    assert(quote_count(w) == 2);
    assert forall|j: int| 0 <= j < w.len() && w[j] == ':' implies #[trigger] quote_count(w.take(j)) % 2 == 1 by {
        let a = opening.len() as int;
        if j < p.0.len() {
            assert(w[j] == p.0[j]);
            assert(p.0.contains(p.0[j]));
        } else if j < a {
        } else if j < a + p.1.len() {
            let i = j - a;
            assert(w.take(j) =~= opening + p.1.take(i));
            lemma_quote_count_add(opening, p.1.take(i));
            assert(!p.1.take(i).contains('"')) by {
                if p.1.take(i).contains('"') {
                    let m = choose|m: int| 0 <= m < p.1.take(i).len() && p.1.take(i)[m] == '"';
                    assert(p.1[m] == '"');
                }
            }
            lemma_quote_count_none(p.1.take(i));
        }
    }
}

/// Written parameters have an even number of quotes and all their colons
/// stand inside quotes.
proof fn lemma_written_params_quotes(params: Seq<(Seq<char>, Seq<char>)>)
    requires
        forall|i: int| 0 <= i < params.len() ==> writable_param(#[trigger] params[i]),
    ensures
        quote_count(written_params(params)) % 2 == 0,
        quoted_only(written_params(params), ':'),
    decreases params.len(),
{
    if params.len() == 0 {
        assert(written_params(params) =~= Seq::<char>::empty());
        lemma_quoted_only_absent(written_params(params), ':');
        assert(quote_count(written_params(params)) == 0);
    } else {
        let p0 = params[0];
        let rest = params.drop_first();
        assert(writable_param(p0));
        assert forall|i: int| 0 <= i < rest.len() implies writable_param(#[trigger] rest[i]) by {
            assert(rest[i] == params[i + 1]);
        }
        lemma_param_segment_quotes(p0);
        lemma_written_params_quotes(rest);
        let wr = written_params(rest);
        let semi = seq![';'];
        let w0 = semi + param_segment(p0);
        assert(written_params(params) == w0 + wr);
        lemma_quote_count_none(semi);
        lemma_quote_count_add(semi, param_segment(p0));
        lemma_quote_count_add(w0, wr);
        lemma_quoted_only_absent(semi, ':');
        lemma_quoted_only_concat(semi, param_segment(p0), ':');
        lemma_quoted_only_concat(w0, wr, ':');
    }
}

/// A written parameter list splits into the written parameter segments: the
/// semicolons inside quoted values do not end a segment.
proof fn lemma_param_list(params: Seq<(Seq<char>, Seq<char>)>)
    requires
        params.len() >= 1,
        forall|i: int| 0 <= i < params.len() ==> writable_param(#[trigger] params[i]),
    ensures
        split_param_segments(param_segment(params[0]) + written_params(params.drop_first()))
            == params.map_values(|p: (Seq<char>, Seq<char>)| param_segment(p)),
    decreases params.len(),
{
    let p0 = params[0];
    let rest = params.drop_first();
    let seg0 = param_segment(p0);
    let wr = written_params(rest);
    let s = seg0 + wr;
    let kl = p0.0.len() as int;
    let vl = p0.1.len() as int;
    assert(writable_param(p0));
    assert(seg0.len() == kl + vl + 3);
    assert forall|j: int| 0 <= j < kl implies #[trigger] s[j] != '=' && s[j] != ';' by {
        assert(s[j] == p0.0[j]);
        assert(p0.0.contains(p0.0[j]));
    }
    assert(s[kl] == '=');
    lemma_index_of_at(s, '=', kl);
    lemma_index_of_bounds(s, ';');
    assert(index_of(s, ';') > kl) by {
        if index_of(s, ';') <= kl {
            assert(s[index_of(s, ';')] == ';');
        }
    }
    assert(s[kl + 1] == '"');
    let after_open = s.skip(kl + 2);
    assert forall|j: int| 0 <= j < vl implies #[trigger] after_open[j] != '"' by {
        assert(after_open[j] == p0.1[j]);
        assert(p0.1.contains(p0.1[j]));
    }
    assert(after_open[vl] == '"');
    lemma_index_of_at(after_open, '"', vl);
    let close = kl + 2 + vl;
    let after_close = s.skip(close);
    assert(after_close[0] == '"');
    if rest.len() > 0 {
        assert(wr == seq![';'] + param_segment(rest[0]) + written_params(rest.drop_first()));
        assert(after_close[1] == ';');
        lemma_index_of_at(after_close, ';', 1);
    } else {
        assert(wr =~= Seq::<char>::empty());
        assert(after_close.len() == 1);
        lemma_index_of_at(after_close, ';', 1);
    }
    assert(param_segment_end(s) == seg0.len());
    let segs = params.map_values(|p: (Seq<char>, Seq<char>)| param_segment(p));
    if rest.len() == 0 {
        assert(s =~= seg0);
        assert(segs =~= seq![seg0]);
    } else {
        assert forall|i: int| 0 <= i < rest.len() implies writable_param(#[trigger] rest[i]) by {
            assert(rest[i] == params[i + 1]);
        }
        lemma_param_list(rest);
        assert(s.take(seg0.len() as int) =~= seg0);
        assert(s.skip(seg0.len() as int + 1) =~= param_segment(rest[0]) + written_params(rest.drop_first()));
        assert(segs =~= seq![seg0] + rest.map_values(|p: (Seq<char>, Seq<char>)| param_segment(p)));
    }
}

/// The parameters read from written segments are the written parameters.
proof fn lemma_params_of_segments(params: Seq<(Seq<char>, Seq<char>)>)
    requires
        forall|i: int| 0 <= i < params.len() ==> writable_param(#[trigger] params[i]),
    ensures
        spec_params(params.map_values(|p: (Seq<char>, Seq<char>)| param_segment(p))) == params,
    decreases params.len(),
{
    let segs = params.map_values(|p: (Seq<char>, Seq<char>)| param_segment(p));
    if params.len() == 0 {
        assert(spec_params(segs) =~= params);
    } else {
        let init = params.drop_last();
        assert forall|i: int| 0 <= i < init.len() implies writable_param(#[trigger] init[i]) by {
            assert(init[i] == params[i]);
        }
        lemma_params_of_segments(init);
        assert(segs.drop_last() =~= init.map_values(|p: (Seq<char>, Seq<char>)| param_segment(p)));
        assert(writable_param(params[params.len() - 1]));
        lemma_param_segment(params.last());
        assert(init.push(params.last()) =~= params);
    }
}

/// A written content line reads back as the property that was written: the
/// colons and semicolons inside quoted parameter values neither end the
/// parameter list nor split a parameter, and the value comes back unescaped.
pub proof fn law_parse_property_reads_written(p: PropertyView)
    requires
        writable_property(p),
    ensures
        spec_parse_property(written_property(p)) == Some(p),
{
    let line = written_property(p);
    let wp = written_params(p.params);
    let head = p.name + wp;
    let k = head.len() as int;
    assert(line =~= head + seq![':'] + spec_escape(p.value));
    lemma_quote_count_none(p.name);
    lemma_quoted_only_absent(p.name, ':');
    lemma_written_params_quotes(p.params);
    lemma_quote_count_add(p.name, wp);
    lemma_quoted_only_concat(p.name, wp, ':');
    assert(line.take(k) =~= head);
    assert(is_value_colon(line, k));
    assert forall|j: int| 0 <= j < k implies !#[trigger] is_value_colon(line, j) by {
        assert(line.take(j) =~= head.take(j));
        if line[j] == ':' {
            assert(head[j] == ':');
        }
    }
    lemma_value_colon_at(line, k);
    assert(line.skip(k + 1) =~= spec_escape(p.value));
    law_unescape_inverts_escape(p.value);
    let nl = p.name.len() as int;
    assert forall|j: int| 0 <= j < nl implies #[trigger] head[j] != ';' by {
        assert(head[j] == p.name[j]);
        assert(p.name.contains(p.name[j]));
    }
    if p.params.len() > 0 {
        assert(wp == seq![';'] + param_segment(p.params[0]) + written_params(p.params.drop_first()));
        assert(head[nl] == ';');
        lemma_index_of_at(head, ';', nl);
        assert(head.skip(nl + 1) =~= param_segment(p.params[0]) + written_params(p.params.drop_first()));
        lemma_param_list(p.params);
        lemma_params_of_segments(p.params);
    } else {
        assert(wp =~= Seq::<char>::empty());
        assert(head =~= p.name);
        lemma_index_of_at(head, ';', nl);
        assert(head_params(head) =~= p.params);
    }
    assert(head.take(nl) =~= p.name);
}

/// A line without any colon is no content line.
pub proof fn law_no_colon_no_property(line: Seq<char>)
    requires
        !line.contains(':'),
    ensures
        spec_parse_property(line) is None,
{
    if exists|k: int| is_first_value_colon(line, k) {
        let k = choose|k: int| is_first_value_colon(line, k);
        assert(line.contains(line[k]));
    }
}

/// The name of a parsed property is never empty and holds no `;`.
pub proof fn law_parsed_name(line: Seq<char>)
    ensures
        spec_parse_property(line) matches Some(p) ==> p.name.len() > 0 && !p.name.contains(';'),
{
    if let Some(k) = value_colon(line) {
        let head = line.take(k);
        lemma_index_of_bounds(head, ';');
        let name = head.take(index_of(head, ';'));
        if name.contains(';') {
            let j = choose|j: int| 0 <= j < name.len() && name[j] == ';';
            assert(head[j] == ';');
        }
    }
}

/// A parameter that can be written without quotes and read back: a name
/// without `=`, `;`, `:` or `"`, and a value without `;`, `:` or `"` (spaces
/// and `=` are fine).
pub open spec fn writable_bare_param(p: (Seq<char>, Seq<char>)) -> bool {
    &&& !p.0.contains('=')
    &&& !p.0.contains(';')
    &&& !p.0.contains(':')
    &&& !p.0.contains('"')
    &&& !p.1.contains(';')
    &&& !p.1.contains(':')
    &&& !p.1.contains('"')
}

/// A parameter written without quotes, as the segment `NAME=VALUE`.
pub open spec fn bare_segment(p: (Seq<char>, Seq<char>)) -> Seq<char> {
    p.0 + seq!['='] + p.1
}

/// Parameters written without quotes one after the other, each behind a `;`.
pub open spec fn written_bare_params(params: Seq<(Seq<char>, Seq<char>)>) -> Seq<char>
    decreases params.len(),
{
    if params.len() == 0 {
        seq![]
    } else {
        seq![';'] + bare_segment(params[0]) + written_bare_params(params.drop_first())
    }
}

/// A content line written with its parameter values unquoted.
pub open spec fn written_bare_property(p: PropertyView) -> Seq<char> {
    p.name + written_bare_params(p.params) + seq![':'] + spec_escape(p.value)
}

/// A property that can be written with unquoted parameter values and read
/// back: a non-empty name without `;`, `:` or `"`, and parameters writable
/// without quotes.
pub open spec fn writable_bare_property(p: PropertyView) -> bool {
    &&& p.name.len() > 0
    &&& !p.name.contains(';')
    &&& !p.name.contains(':')
    &&& !p.name.contains('"')
    &&& forall|i: int| 0 <= i < p.params.len() ==> writable_bare_param(#[trigger] p.params[i])
}

/// Unquoted parameters hold no colon and no quote.
proof fn lemma_bare_params_plain(params: Seq<(Seq<char>, Seq<char>)>)
    requires
        forall|i: int| 0 <= i < params.len() ==> writable_bare_param(#[trigger] params[i]),
    ensures
        !written_bare_params(params).contains(':'),
        !written_bare_params(params).contains('"'),
    decreases params.len(),
{
    if params.len() > 0 {
        let p0 = params[0];
        let rest = params.drop_first();
        assert(writable_bare_param(p0));
        assert forall|i: int| 0 <= i < rest.len() implies writable_bare_param(#[trigger] rest[i]) by {
            assert(rest[i] == params[i + 1]);
        }
        lemma_bare_params_plain(rest);
        let w = written_bare_params(params);
        let wr = written_bare_params(rest);
        assert(w == seq![';'] + p0.0 + seq!['='] + p0.1 + wr);
        assert forall|c: char| c == ':' || c == '"' implies !w.contains(c) by {
            if w.contains(c) {
                let j = choose|j: int| 0 <= j < w.len() && w[j] == c;
                let a = 1 + p0.0.len();
                if 1 <= j < a {
                    assert(p0.0[j - 1] == c);
                    assert(p0.0.contains(p0.0[j - 1]));
                } else if a + 1 <= j < a + 1 + p0.1.len() {
                    assert(p0.1[j - a - 1] == c);
                    assert(p0.1.contains(p0.1[j - a - 1]));
                } else if j >= a + 1 + p0.1.len() {
                    assert(wr[j - a - 1 - p0.1.len()] == c);
                    assert(wr.contains(wr[j - a - 1 - p0.1.len()]));
                }
            }
        }
    }
}

/// A parameter written without quotes reads back as itself.
proof fn lemma_bare_segment(p: (Seq<char>, Seq<char>))
    requires
        writable_bare_param(p),
    ensures
        spec_parse_param(bare_segment(p)) == Some(p),
{
    let seg = bare_segment(p);
    let k = p.0.len() as int;
    assert forall|j: int| 0 <= j < k implies #[trigger] seg[j] != '=' by {
        assert(seg[j] == p.0[j]);
        assert(p.0.contains(p.0[j]));
    }
    assert(seg[k] == '=');
    lemma_index_of_at(seg, '=', k);
    assert(seg.take(k) =~= p.0);
    assert(seg.skip(k + 1) =~= p.1);
    if p.1.len() > 0 {
        assert(p.1.contains(p.1[0]));
    }
}

/// An unquoted parameter list splits into its segments at every `;`.
proof fn lemma_bare_param_list(params: Seq<(Seq<char>, Seq<char>)>)
    requires
        params.len() >= 1,
        forall|i: int| 0 <= i < params.len() ==> writable_bare_param(#[trigger] params[i]),
    ensures
        split_param_segments(bare_segment(params[0]) + written_bare_params(params.drop_first()))
            == params.map_values(|p: (Seq<char>, Seq<char>)| bare_segment(p)),
    decreases params.len(),
{
    let p0 = params[0];
    let rest = params.drop_first();
    let seg0 = bare_segment(p0);
    let wr = written_bare_params(rest);
    let s = seg0 + wr;
    let kl = p0.0.len() as int;
    let vl = p0.1.len() as int;
    assert(writable_bare_param(p0));
    assert(seg0.len() == kl + vl + 1);
    assert forall|j: int| 0 <= j < kl implies #[trigger] s[j] != '=' && s[j] != ';' by {
        assert(s[j] == p0.0[j]);
        assert(p0.0.contains(p0.0[j]));
    }
    assert(s[kl] == '=');
    lemma_index_of_at(s, '=', kl);
    assert forall|j: int| 0 <= j < seg0.len() implies #[trigger] s[j] != ';' by {
        if j > kl {
            assert(s[j] == p0.1[j - kl - 1]);
            assert(p0.1.contains(p0.1[j - kl - 1]));
        }
    }
    if rest.len() > 0 {
        assert(wr == seq![';'] + bare_segment(rest[0]) + written_bare_params(rest.drop_first()));
        assert(s[seg0.len() as int] == ';');
    } else {
        assert(wr =~= Seq::<char>::empty());
    }
    lemma_index_of_at(s, ';', seg0.len() as int);
    if kl + 1 < s.len() {
        if vl > 0 {
            assert(s[kl + 1] == p0.1[0]);
            assert(p0.1.contains(p0.1[0]));
        } else {
            assert(s[kl + 1] == wr[0]);
        }
    }
    assert(param_segment_end(s) == seg0.len());
    let segs = params.map_values(|p: (Seq<char>, Seq<char>)| bare_segment(p));
    if rest.len() == 0 {
        assert(s =~= seg0);
        assert(segs =~= seq![seg0]);
    } else {
        assert forall|i: int| 0 <= i < rest.len() implies writable_bare_param(#[trigger] rest[i]) by {
            assert(rest[i] == params[i + 1]);
        }
        lemma_bare_param_list(rest);
        assert(s.take(seg0.len() as int) =~= seg0);
        assert(s.skip(seg0.len() as int + 1) =~= bare_segment(rest[0]) + written_bare_params(rest.drop_first()));
        assert(segs =~= seq![seg0] + rest.map_values(|p: (Seq<char>, Seq<char>)| bare_segment(p)));
    }
}

/// The parameters read from unquoted segments are the written parameters.
proof fn lemma_params_of_bare_segments(params: Seq<(Seq<char>, Seq<char>)>)
    requires
        forall|i: int| 0 <= i < params.len() ==> writable_bare_param(#[trigger] params[i]),
    ensures
        spec_params(params.map_values(|p: (Seq<char>, Seq<char>)| bare_segment(p))) == params,
    decreases params.len(),
{
    let segs = params.map_values(|p: (Seq<char>, Seq<char>)| bare_segment(p));
    if params.len() == 0 {
        assert(spec_params(segs) =~= params);
    } else {
        let init = params.drop_last();
        assert forall|i: int| 0 <= i < init.len() implies writable_bare_param(#[trigger] init[i]) by {
            assert(init[i] == params[i]);
        }
        lemma_params_of_bare_segments(init);
        assert(segs.drop_last() =~= init.map_values(|p: (Seq<char>, Seq<char>)| bare_segment(p)));
        assert(writable_bare_param(params[params.len() - 1]));
        lemma_bare_segment(params.last());
        assert(init.push(params.last()) =~= params);
    }
}

/// A content line written with unquoted parameter values reads back as the
/// property that was written: each parameter value comes back whole, spaces
/// and `=` included, and the value comes back unescaped.
pub proof fn law_parse_property_reads_written_bare(p: PropertyView)
    requires
        writable_bare_property(p),
    ensures
        spec_parse_property(written_bare_property(p)) == Some(p),
{
    let line = written_bare_property(p);
    let wp = written_bare_params(p.params);
    let head = p.name + wp;
    let k = head.len() as int;
    assert(line =~= head + seq![':'] + spec_escape(p.value));
    lemma_bare_params_plain(p.params);
    assert forall|j: int| 0 <= j < k implies #[trigger] head[j] != ':' && head[j] != '"' by {
        if j < p.name.len() {
            assert(head[j] == p.name[j]);
            assert(p.name.contains(p.name[j]));
        } else {
            assert(head[j] == wp[j - p.name.len()]);
            assert(wp.contains(wp[j - p.name.len()]));
        }
    }
    assert(line.take(k) =~= head);
    assert(!head.contains('"')) by {
        if head.contains('"') {
            let j = choose|j: int| 0 <= j < head.len() && head[j] == '"';
        }
    }
    lemma_quote_count_none(head);
    assert(is_value_colon(line, k));
    assert forall|j: int| 0 <= j < k implies !#[trigger] is_value_colon(line, j) by {
        assert(line[j] == head[j]);
    }
    lemma_value_colon_at(line, k);
    assert(line.skip(k + 1) =~= spec_escape(p.value));
    law_unescape_inverts_escape(p.value);
    let nl = p.name.len() as int;
    assert forall|j: int| 0 <= j < nl implies #[trigger] head[j] != ';' by {
        assert(head[j] == p.name[j]);
        assert(p.name.contains(p.name[j]));
    }
    if p.params.len() > 0 {
        assert(wp == seq![';'] + bare_segment(p.params[0]) + written_bare_params(p.params.drop_first()));
        assert(head[nl] == ';');
        lemma_index_of_at(head, ';', nl);
        assert(head.skip(nl + 1) =~= bare_segment(p.params[0]) + written_bare_params(p.params.drop_first()));
        lemma_bare_param_list(p.params);
        lemma_params_of_bare_segments(p.params);
    } else {
        assert(wp =~= Seq::<char>::empty());
        assert(head =~= p.name);
        lemma_index_of_at(head, ';', nl);
        assert(head_params(head) =~= p.params);
    }
    assert(head.take(nl) =~= p.name);
}

} // verus!
