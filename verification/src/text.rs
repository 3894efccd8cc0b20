//! Character-level helpers shared by the parsers.
use vstd::prelude::*;

verus! {

broadcast use vstd::string::group_string_axioms;

/// The characters of `s`, in order.
pub fn chars_of(s: &str) -> (v: Vec<char>)
    ensures
        v@ == s@,
{
    let mut v: Vec<char> = Vec::new();
    for c in it: s.chars()
        invariant
            v@ == it.history(),
            it.seq() == s@,
    {
        v.push(c);
    }
    v
}

/// Appends `c` to `s` (`String::push`, whose documentation states that it
/// appends the given char to the end of the string).
#[verifier::external_body]
pub(crate) fn push_char(s: &mut String, c: char)
    ensures
        final(s)@ == old(s)@.push(c),
{
    s.push(c);
}

/// Appends the characters `v[from..to]` to `s`.
pub fn append_range(s: &mut String, v: &Vec<char>, from: usize, to: usize)
    requires
        from <= to <= v.len(),
    ensures
        final(s)@ == old(s)@ + v@.subrange(from as int, to as int),
{
    let mut i = from;
    while i < to
        invariant
            from <= i <= to <= v.len(),
            s@ == old(s)@ + v@.subrange(from as int, i as int),
        decreases to - i,
    {
        push_char(s, v[i]);
        assert(old(s)@ + v@.subrange(from as int, i + 1) == old(s)@ + v@.subrange(from as int, i as int) + seq![v@[i as int]]);
        i += 1;
    }
}

/// A `String` holding exactly the characters `v[from..to]`.
pub fn string_from_range(v: &Vec<char>, from: usize, to: usize) -> (s: String)
    requires
        from <= to <= v.len(),
    ensures
        s@ == v@.subrange(from as int, to as int),
{
    let mut s = String::new();
    append_range(&mut s, v, from, to);
    assert(Seq::<char>::empty() + v@.subrange(from as int, to as int) == v@.subrange(from as int, to as int));
    s
}

/// The character views of a sequence of strings.
pub open spec fn views(v: Seq<String>) -> Seq<Seq<char>> {
    v.map_values(|l: String| l@)
}

/// `k` is the index of the first occurrence of `c` in `s`.
pub open spec fn is_first_index(s: Seq<char>, c: char, k: int) -> bool {
    &&& 0 <= k < s.len()
    &&& s[k] == c
    &&& forall|j: int| 0 <= j < k ==> #[trigger] s[j] != c
}

/// The index of the first `c` in `s`, or the length of `s` when there is none.
pub open spec fn index_of(s: Seq<char>, c: char) -> int {
    if exists|k: int| is_first_index(s, c, k) {
        choose|k: int| is_first_index(s, c, k)
    } else {
        s.len() as int
    }
}

/// `index_of` lies within `s` and finds the first occurrence.
pub proof fn lemma_index_of_bounds(s: Seq<char>, c: char)
    ensures
        0 <= index_of(s, c) <= s.len(),
        index_of(s, c) < s.len() ==> is_first_index(s, c, index_of(s, c)),
        index_of(s, c) == s.len() ==> forall|j: int| 0 <= j < s.len() ==> #[trigger] s[j] != c,
{
    if !(exists|k: int| is_first_index(s, c, k)) {
        assert forall|j: int| 0 <= j < s.len() implies #[trigger] s[j] != c by {
            if s[j] == c {
                lemma_first_index_exists(s, c, j);
            }
        }
    }
}

proof fn lemma_first_index_exists(s: Seq<char>, c: char, j: int)
    requires
        0 <= j < s.len(),
        s[j] == c,
    ensures
        exists|k: int| is_first_index(s, c, k),
    decreases j,
{
    if forall|i: int| 0 <= i < j ==> #[trigger] s[i] != c {
        assert(is_first_index(s, c, j));
    } else {
        let i = choose|i: int| 0 <= i < j && #[trigger] s[i] == c;
        lemma_first_index_exists(s, c, i);
    }
}

/// The first `c` of `s` is at `k` when none precedes `k` and `k` holds `c`
/// or is the end of `s`.
pub proof fn lemma_index_of_at(s: Seq<char>, c: char, k: int)
    requires
        0 <= k <= s.len(),
        forall|j: int| 0 <= j < k ==> #[trigger] s[j] != c,
        k == s.len() || s[k] == c,
    ensures
        index_of(s, c) == k,
{
    lemma_index_of_bounds(s, c);
    let e = index_of(s, c);
    if e < k {
        assert(s[e] == c);
    } else if e > k {
        assert(s[k] == c);
    }
}

/// The index of the first `c` in `v[from..to]`, counted from the start of
/// `v`, or `to` when there is none.
pub fn find_char(v: &Vec<char>, from: usize, to: usize, c: char) -> (k: usize)
    requires
        from <= to <= v.len(),
    ensures
        k == from + index_of(v@.subrange(from as int, to as int), c),
        from <= k <= to,
{
    let ghost s = v@.subrange(from as int, to as int);
    let mut k = from;
    while k < to && v[k] != c
        invariant
            from <= k <= to <= v.len(),
            s == v@.subrange(from as int, to as int),
            forall|j: int| from <= j < k ==> #[trigger] v@[j] != c,
        decreases to - k,
    {
        k += 1;
    }
    proof {
        assert forall|j: int| 0 <= j < k - from implies #[trigger] s[j] != c by {
            assert(s[j] == v@[from + j]);
        }
        if k < to {
            assert(s[k - from] == v@[k as int]);
        }
        lemma_index_of_at(s, c, k - from);
    }
    k
}

/// The character views of a sequence of character vectors.
pub open spec fn vec_views(v: Seq<Vec<char>>) -> Seq<Seq<char>> {
    v.map_values(|l: Vec<char>| l@)
}

/// A vector holding exactly the characters `v[from..to]`.
pub fn vec_from_range(v: &Vec<char>, from: usize, to: usize) -> (r: Vec<char>)
    requires
        from <= to <= v.len(),
    ensures
        r@ == v@.subrange(from as int, to as int),
{
    let mut r: Vec<char> = Vec::new();
    let mut i = from;
    while i < to
        invariant
            from <= i <= to <= v.len(),
            r@ == v@.subrange(from as int, i as int),
        decreases to - i,
    {
        r.push(v[i]);
        assert(v@.subrange(from as int, i + 1) =~= v@.subrange(from as int, i as int).push(v@[i as int]));
        i += 1;
    }
    r
}

/// `c` is an ASCII uppercase letter.
pub open spec fn is_ascii_upper(c: char) -> bool {
    'A' <= c <= 'Z'
}

/// `x` and `y` are the same character up to ASCII case (what
/// `u8::eq_ignore_ascii_case` decides).
pub open spec fn same_ignoring_ascii_case(x: char, y: char) -> bool {
    ||| x == y
    ||| is_ascii_upper(x) && y as int == x as int + 32
    ||| is_ascii_upper(y) && x as int == y as int + 32
}

/// `a` and `b` are equal up to ASCII case (what `str::eq_ignore_ascii_case`
/// decides).
pub open spec fn eq_ignore_ascii_case(a: Seq<char>, b: Seq<char>) -> bool {
    a.len() == b.len() && forall|i: int| 0 <= i < a.len() ==> same_ignoring_ascii_case(#[trigger] a[i], b[i])
}

/// Decides `same_ignoring_ascii_case`.
fn chars_eq_ignore_case(x: char, y: char) -> (r: bool)
    ensures
        r == same_ignoring_ascii_case(x, y),
{
    let xu = x as u32;
    let yu = y as u32;
    x == y || ('A' <= x && x <= 'Z' && yu == xu + 32) || ('A' <= y && y <= 'Z' && xu == yu + 32)
}

/// Decides `eq_ignore_ascii_case(a@, b)`.
pub fn chars_eq_ignore_ascii_case(a: &Vec<char>, b: &[char]) -> (r: bool)
    ensures
        r == eq_ignore_ascii_case(a@, b@),
{
    if a.len() != b.len() {
        return false;
    }
    let mut i: usize = 0;
    while i < a.len()
        invariant
            a@.len() == b@.len(),
            i <= a.len(),
            forall|j: int| 0 <= j < i ==> same_ignoring_ascii_case(#[trigger] a@[j], b@[j]),
        decreases a.len() - i,
    {
        if !chars_eq_ignore_case(a[i], b[i]) {
            return false;
        }
        i += 1;
    }
    true
}

/// `c` is an ASCII decimal digit.
pub open spec fn is_digit(c: char) -> bool {
    '0' <= c <= '9'
}

/// The value of the digit `c`.
pub open spec fn digit_value(c: char) -> int {
    c as int - '0' as int
}

/// The character of the decimal digit `d`.
pub open spec fn digit_char(d: int) -> char {
    ('0' as int + d) as char
}

/// The decimal digits of `n`, most significant first, without leading zeros.
pub open spec fn decimal_digits(n: nat) -> Seq<char>
    decreases n,
{
    if n < 10 {
        seq![digit_char(n as int)]
    } else {
        decimal_digits(n / 10).push(digit_char((n % 10) as int))
    }
}

/// `s` with `0` characters in front up to `width` characters in all.
pub open spec fn zero_pad(s: Seq<char>, width: nat) -> Seq<char> {
    if s.len() >= width {
        s
    } else {
        Seq::new((width - s.len()) as nat, |i: int| '0') + s
    }
}

/// `n` in decimal, zero-padded to `width` characters with the sign counted in
/// the width (what `format!("{:0width$}", n)` gives).
pub open spec fn format_padded(n: int, width: nat) -> Seq<char> {
    if n < 0 {
        seq!['-'] + zero_pad(decimal_digits((-n) as nat), if width > 0 { (width - 1) as nat } else { 0 })
    } else {
        zero_pad(decimal_digits(n as nat), width)
    }
}

/// Appends the decimal digits of `n` to `v`.
fn push_digits(v: &mut Vec<char>, n: u64)
    ensures
        final(v)@ == old(v)@ + decimal_digits(n as nat),
    decreases n,
{
    if n >= 10 {
        push_digits(v, n / 10);
    }
    let d: u8 = (n % 10) as u8;
    let c: char = (48u8 + d) as char;
    v.push(c);
    proof {
        if n >= 10 {
            assert(old(v)@ + decimal_digits((n / 10) as nat) + seq![c] =~= old(v)@ + decimal_digits(n as nat));
        } else {
            assert(old(v)@ + seq![c] =~= old(v)@ + decimal_digits(n as nat));
        }
    }
}

/// Appends `n` in decimal to `s`, zero-padded to `width` characters, the
/// sign counted in the width.
pub fn push_padded(s: &mut String, n: i64, width: usize)
    ensures
        final(s)@ == old(s)@ + format_padded(n as int, width as nat),
{
    let mut digits: Vec<char> = Vec::new();
    let magnitude: u64 = if n < 0 { (0i128 - n as i128) as u64 } else { n as u64 };
    push_digits(&mut digits, magnitude);
    assert(digits@ =~= decimal_digits(magnitude as nat));
    let mut room = width;
    if n < 0 {
        push_char(s, '-');
        if room > 0 {
            room = room - 1;
        }
    }
    let ghost mid = s@;
    let mut k = digits.len();
    while k < room
        invariant
            digits.len() <= k <= room || room <= digits.len() == k,
            s@ == mid + Seq::new((k - digits.len()) as nat, |i: int| '0'),
        decreases room - k,
    {
        push_char(s, '0');
        assert(mid + Seq::new((k + 1 - digits.len()) as nat, |i: int| '0') =~= mid + Seq::new((k - digits.len()) as nat, |i: int| '0').push('0'));
        k += 1;
    }
    let ghost padded = s@;
    append_range(s, &digits, 0, digits.len());
    proof {
        assert(digits@.subrange(0, digits@.len() as int) =~= digits@);
        let z = zero_pad(decimal_digits(magnitude as nat), room as nat);
        if digits.len() >= room {
            assert(Seq::new(0, |i: int| '0') + digits@ =~= digits@);
            assert(mid + Seq::new(0, |i: int| '0') =~= mid);
        }
        assert(s@ =~= mid + z);
        if n < 0 {
            assert(old(s)@ + format_padded(n as int, width as nat) =~= old(s)@ + seq!['-'] + z);
        }
    }
}

/// Decides `a@ == b@`.
pub fn chars_eq(a: &Vec<char>, b: &[char]) -> (r: bool)
    ensures
        r == (a@ == b@),
{
    if a.len() != b.len() {
        return false;
    }
    let mut i: usize = 0;
    while i < a.len()
        invariant
            a@.len() == b@.len(),
            i <= a.len(),
            forall|j: int| 0 <= j < i ==> #[trigger] a@[j] == b@[j],
        decreases a.len() - i,
    {
        if a[i] != b[i] {
            return false;
        }
        i += 1;
    }
    assert(a@ =~= b@);
    true
}

} // verus!
