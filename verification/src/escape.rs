//! Backslash escapes inside property values.
use vstd::prelude::*;
use crate::text::{chars_of, push_char};

verus! {

/// What the escape `\c` stands for: `\n` and `\N` a newline, `\,` `\;` and
/// `\\` the character itself; any other escape stays as written.
pub open spec fn unescaped_pair(c: char) -> Seq<char> {
    if c == 'n' || c == 'N' {
        seq!['\n']
    } else if c == ',' || c == ';' || c == '\\' {
        seq![c]
    } else {
        seq!['\\', c]
    }
}

/// `s` with its backslash escapes undone, read from left to right; a lone
/// backslash at the end stays.
pub open spec fn spec_unescape(s: Seq<char>) -> Seq<char>
    decreases s.len(),
{
    if s.len() == 0 {
        seq![]
    } else if s[0] != '\\' {
        seq![s[0]] + spec_unescape(s.drop_first())
    } else if s.len() == 1 {
        seq!['\\']
    } else {
        unescaped_pair(s[1]) + spec_unescape(s.skip(2))
    }
}

/// Undoes the backslash escaping used inside property values: `\,`, `\;`,
/// `\\`, and `\n`/`\N` for newlines. An unrecognized escape is left as-is
/// rather than silently dropping the backslash, since a wrong guess here
/// is worse than a slightly odd passthrough.
pub fn unescape_value(s: &str) -> (out: String)
    ensures
        out@ == spec_unescape(s@),
{
    let v = chars_of(s);
    assert(v@.skip(0) =~= v@);
    unescape_from(&v, 0)
}

/// `spec_unescape` of the characters of `v` from index `from` on.
pub(crate) fn unescape_from(v: &Vec<char>, from: usize) -> (out: String)
    requires
        from <= v.len(),
    ensures
        out@ == spec_unescape(v@.skip(from as int)),
{
    let n = v.len();
    let mut out = String::new();
    let mut i: usize = from;
    assert(Seq::<char>::empty() + spec_unescape(v@.skip(from as int)) =~= spec_unescape(v@.skip(from as int)));
    while i < n
        invariant
            n == v.len(),
            from <= i <= n,
            out@ + spec_unescape(v@.skip(i as int)) == spec_unescape(v@.skip(from as int)),
        decreases n - i,
    {
        let ghost rest = v@.skip(i as int);
        let ghost before = out@;
        let c = v[i];
        if c != '\\' {
            push_char(&mut out, c);
            proof {
                assert(rest.drop_first() =~= v@.skip(i + 1));
                assert(before + spec_unescape(rest) =~= out@ + spec_unescape(v@.skip(i + 1)));
            }
            i += 1;
        } else if i + 1 == n {
            push_char(&mut out, '\\');
            proof {
                assert(v@.skip(n as int) =~= Seq::<char>::empty());
                assert(out@ + spec_unescape(v@.skip(n as int)) =~= before + spec_unescape(rest));
            }
            i += 1;
        } else {
            let d = v[i + 1];
            if d == 'n' || d == 'N' {
                push_char(&mut out, '\n');
            } else if d == ',' || d == ';' || d == '\\' {
                push_char(&mut out, d);
            } else {
                push_char(&mut out, '\\');
                push_char(&mut out, d);
            }
            proof {
                assert(rest[1] == d);
                assert(rest.skip(2) =~= v@.skip(i + 2));
                assert(out@ =~= before + unescaped_pair(d));
                assert(out@ + spec_unescape(v@.skip(i + 2)) =~= before + spec_unescape(rest));
            }
            i += 2;
        }
    }
    assert(v@.skip(n as int) =~= Seq::<char>::empty());
    assert(out@ + spec_unescape(v@.skip(n as int)) =~= out@);
    out
}

/// How a value character is written escaped: backslash, comma, semicolon
/// and newline behind a backslash (newline as `\n`), anything else as is.
pub open spec fn escaped_char(c: char) -> Seq<char> {
    if c == '\\' || c == ',' || c == ';' {
        seq!['\\', c]
    } else if c == '\n' {
        seq!['\\', 'n']
    } else {
        seq![c]
    }
}

/// `v` written with property-value escaping.
pub open spec fn spec_escape(v: Seq<char>) -> Seq<char>
    decreases v.len(),
{
    if v.len() == 0 {
        seq![]
    } else {
        escaped_char(v[0]) + spec_escape(v.drop_first())
    }
}

/// Unescaping gives back any value that was written escaped.
pub proof fn law_unescape_inverts_escape(v: Seq<char>)
    ensures
        spec_unescape(spec_escape(v)) == v,
    decreases v.len(),
{
    if v.len() > 0 {
        law_unescape_inverts_escape(v.drop_first());
        let c = v[0];
        let rest = spec_escape(v.drop_first());
        let s = escaped_char(c) + rest;
        if escaped_char(c).len() == 1 {
            assert(s.drop_first() =~= rest);
        } else {
            assert(s.skip(2) =~= rest);
        }
        assert(seq![c] + v.drop_first() =~= v);
    }
}

/// Text without a backslash is its own value.
pub proof fn law_unescape_without_backslash(s: Seq<char>)
    requires
        !s.contains('\\'),
    ensures
        spec_unescape(s) == s,
    decreases s.len(),
{
    if s.len() > 0 {
        assert(s[0] != '\\') by {
            assert(s.contains(s[0]));
        }
        assert forall|c: char| s.drop_first().contains(c) implies s.contains(c) by {
            let i = choose|i: int| 0 <= i < s.drop_first().len() && s.drop_first()[i] == c;
            assert(s[i + 1] == c);
        }
        law_unescape_without_backslash(s.drop_first());
        assert(seq![s[0]] + s.drop_first() =~= s);
    }
}

/// Unescaping never makes a value longer than its escaped text.
pub proof fn law_unescape_not_longer(s: Seq<char>)
    ensures
        spec_unescape(s).len() <= s.len(),
    decreases s.len(),
{
    if s.len() > 0 {
        if s[0] != '\\' {
            law_unescape_not_longer(s.drop_first());
        } else if s.len() > 1 {
            law_unescape_not_longer(s.skip(2));
        }
    }
}

/// Escaping writes no newline, and no carriage return that the value did not
/// hold.
pub proof fn law_escape_writes_no_newline(v: Seq<char>)
    ensures
        !spec_escape(v).contains('\n'),
        !v.contains('\r') ==> !spec_escape(v).contains('\r'),
    decreases v.len(),
{
    if v.len() > 0 {
        law_escape_writes_no_newline(v.drop_first());
        let e = escaped_char(v[0]);
        let rest = spec_escape(v.drop_first());
        let s = e + rest;
        assert(!v.contains('\r') ==> !v.drop_first().contains('\r')) by {
            if v.drop_first().contains('\r') {
                let i = choose|i: int| 0 <= i < v.drop_first().len() && v.drop_first()[i] == '\r';
                assert(v[i + 1] == '\r');
            }
        }
        assert(!v.contains('\r') ==> v[0] != '\r') by {
            assert(v.contains(v[0]));
        }
        assert forall|c: char| (c == '\n' || (c == '\r' && !v.contains('\r'))) implies !s.contains(c) by {
            if s.contains(c) {
                let i = choose|i: int| 0 <= i < s.len() && s[i] == c;
                if i >= e.len() {
                    assert(rest[i - e.len()] == c);
                }
            }
        }
    }
}

} // verus!
