//! Character-level text helpers: Unicode white space and trimming,
//! line splitting, decimal formatting and joining.
use vstd::prelude::*;
use vstd::string::StringExecFns;

verus! {

// ---------------------------------------------------------------------
// Views
// ---------------------------------------------------------------------

/// The character sequences held by a sequence of strings.
pub open spec fn strings_view(v: Seq<String>) -> Seq<Seq<char>> {
    v.map_values(|s: String| s@)
}

// ---------------------------------------------------------------------
// Unicode white space and trimming
// ---------------------------------------------------------------------

/// The characters with the Unicode property `White_Space`.
pub open spec fn is_white_space(c: char) -> bool {
    let v = c as u32;
    ||| (0x09 <= v && v <= 0x0d)
    ||| v == 0x20
    ||| v == 0x85
    ||| v == 0xa0
    ||| v == 0x1680
    ||| (0x2000 <= v && v <= 0x200a)
    ||| v == 0x2028
    ||| v == 0x2029
    ||| v == 0x202f
    ||| v == 0x205f
    ||| v == 0x3000
}

/// `s` without its leading white space.
pub open spec fn trim_start_ws(s: Seq<char>) -> Seq<char>
    decreases s.len(),
{
    if s.len() > 0 && is_white_space(s[0]) {
        trim_start_ws(s.drop_first())
    } else {
        s
    }
}

/// `s` without its trailing white space.
pub open spec fn trim_end_ws(s: Seq<char>) -> Seq<char>
    decreases s.len(),
{
    if s.len() > 0 && is_white_space(s.last()) {
        trim_end_ws(s.drop_last())
    } else {
        s
    }
}

/// `s` without leading and trailing white space.
pub open spec fn trim_ws(s: Seq<char>) -> Seq<char> {
    trim_end_ws(trim_start_ws(s))
}

pub fn is_white_space_char(c: char) -> (r: bool)
    ensures
        r == is_white_space(c),
{
    let v = c as u32;
    (0x09 <= v && v <= 0x0d) || v == 0x20 || v == 0x85 || v == 0xa0 || v == 0x1680 || (0x2000
        <= v && v <= 0x200a) || v == 0x2028 || v == 0x2029 || v == 0x202f || v == 0x205f || v
        == 0x3000
}

/// Appends one character to a string.
/// Trusted: calls `String::push`, which std documents as appending the
/// given char to the end of the string; the contract says exactly that.
#[verifier::external_body]
pub(crate) fn push_char(s: &mut String, c: char)
    ensures
        final(s)@ == old(s)@.push(c),
{
    s.push(c);
}

/// The characters of `s`, in order.
pub fn chars_of(s: &str) -> (r: Vec<char>)
    ensures
        r@ == s@,
{
    let mut r: Vec<char> = Vec::new();
    for c in it: s.chars()
        invariant
            r@ == it.seq().take(it.index() as int),
    {
        r.push(c);
    }
    r
}

/// Appends `v[from..to]` to `out`.
pub fn push_chars(out: &mut String, v: &Vec<char>, from: usize, to: usize)
    requires
        from <= to <= v@.len(),
    ensures
        final(out)@ == old(out)@ + v@.subrange(from as int, to as int),
{
    let mut k = from;
    while k < to
        invariant
            from <= k <= to <= v@.len(),
            out@ == old(out)@ + v@.subrange(from as int, k as int),
        decreases to - k,
    {
        push_char(out, v[k]);
        proof {
            assert(v@.subrange(from as int, k + 1) =~= v@.subrange(from as int, k as int).push(
                v@[k as int],
            ));
        }
        k = k + 1;
    }
}

/// The string made of `v[from..to]`.
pub fn string_of_chars(v: &Vec<char>, from: usize, to: usize) -> (r: String)
    requires
        from <= to <= v@.len(),
    ensures
        r@ == v@.subrange(from as int, to as int),
{
    let mut r = String::new();
    push_chars(&mut r, v, from, to);
    assert(r@ =~= v@.subrange(from as int, to as int));
    r
}

proof fn lemma_trim_start_skip(s: Seq<char>, a: int)
    requires
        0 <= a <= s.len(),
        forall|k: int| 0 <= k < a ==> is_white_space(#[trigger] s[k]),
    ensures
        trim_start_ws(s) == trim_start_ws(s.skip(a)),
    decreases a,
{
    if a > 0 {
        lemma_trim_start_skip(s.drop_first(), a - 1);
        assert(s.drop_first().skip(a - 1) =~= s.skip(a));
    } else {
        assert(s.skip(0) =~= s);
    }
}

proof fn lemma_trim_end_take(s: Seq<char>, b: int)
    requires
        0 <= b <= s.len(),
        forall|k: int| b <= k < s.len() ==> is_white_space(#[trigger] s[k]),
    ensures
        trim_end_ws(s) == trim_end_ws(s.take(b)),
    decreases s.len() - b,
{
    if b < s.len() {
        lemma_trim_end_take(s.drop_last(), b);
        assert(s.drop_last().take(b) =~= s.take(b));
    } else {
        assert(s.take(b) =~= s);
    }
}

/// Removes leading and trailing white space (as `str::trim` does).
pub fn trim(s: &str) -> (r: String)
    ensures
        r@ == trim_ws(s@),
{
    let v = chars_of(s);
    let n = v.len();
    let mut a: usize = 0;
    while a < n && is_white_space_char(v[a])
        invariant
            n == v@.len(),
            a <= n,
            forall|k: int| 0 <= k < a ==> is_white_space(#[trigger] v@[k]),
        decreases n - a,
    {
        a = a + 1;
    }
    proof {
        lemma_trim_start_skip(v@, a as int);
        assert(trim_start_ws(v@.skip(a as int)) == v@.skip(a as int));
    }
    let mut b: usize = n;
    while b > a && is_white_space_char(v[b - 1])
        invariant
            n == v@.len(),
            a <= b <= n,
            forall|k: int| b <= k < n ==> is_white_space(#[trigger] v@[k]),
        decreases b - a,
    {
        b = b - 1;
    }
    proof {
        let t = v@.skip(a as int);
        assert forall|k: int| (b - a) <= k < t.len() implies is_white_space(#[trigger] t[k]) by {
            assert(t[k] == v@[k + a]);
        }
        lemma_trim_end_take(t, (b - a) as int);
        assert(t.take((b - a) as int) =~= v@.subrange(a as int, b as int));
        let u = v@.subrange(a as int, b as int);
        if u.len() > 0 {
            assert(u.last() == v@[b - 1]);
        }
    }
    string_of_chars(&v, a, b)
}

/// Whether `s` holds nothing but white space (`s.trim().is_empty()`).
pub fn is_blank(s: &str) -> (r: bool)
    ensures
        r == (trim_ws(s@).len() == 0),
{
    let t = trim(s);
    t.as_str().is_empty()
}

// ---------------------------------------------------------------------
// Lines (as `str::lines` splits them)
// ---------------------------------------------------------------------

/// Index of the first `x` in `s`, if any.
pub open spec fn first_index_of<T>(s: Seq<T>, x: T) -> Option<int>
    decreases s.len(),
{
    if s.len() == 0 {
        None
    } else if s[0] == x {
        Some(0)
    } else {
        match first_index_of(s.drop_first(), x) {
            Some(j) => Some(j + 1),
            None => None,
        }
    }
}

pub proof fn lemma_first_index_of<T>(s: Seq<T>, x: T)
    ensures
        match first_index_of(s, x) {
            Some(j) => 0 <= j < s.len() && s[j] == x && forall|k: int|
                0 <= k < j ==> s[k] != x,
            None => forall|k: int| 0 <= k < s.len() ==> s[k] != x,
        },
    decreases s.len(),
{
    if s.len() > 0 {
        lemma_first_index_of(s.drop_first(), x);
        if s[0] != x {
            match first_index_of(s.drop_first(), x) {
                Some(j) => {
                    assert forall|k: int| 0 <= k < j + 1 implies s[k] != x by {
                        if k > 0 {
                            assert(s[k] == s.drop_first()[k - 1]);
                        }
                    }
                },
                None => {
                    assert forall|k: int| 0 <= k < s.len() implies s[k] != x by {
                        if k > 0 {
                            assert(s[k] == s.drop_first()[k - 1]);
                        }
                    }
                },
            }
        }
    }
}

pub proof fn lemma_first_index_of_is<T>(s: Seq<T>, x: T, j: int)
    requires
        0 <= j < s.len(),
        s[j] == x,
        forall|k: int| 0 <= k < j ==> s[k] != x,
    ensures
        first_index_of(s, x) == Some(j),
{
    lemma_first_index_of(s, x);
    match first_index_of(s, x) {
        Some(i) => {
            if i < j {
                assert(s[i] != x);
            }
            if j < i {
                assert(s[j] != x);
            }
        },
        None => {
            assert(s[j] != x);
        },
    }
}

pub proof fn lemma_first_index_of_none<T>(s: Seq<T>, x: T)
    requires
        forall|k: int| 0 <= k < s.len() ==> s[k] != x,
    ensures
        first_index_of(s, x) is None,
{
    lemma_first_index_of(s, x);
    if let Some(j) = first_index_of(s, x) {
        assert(s[j] != x);
    }
}

/// `l` without one final `cr`, if it ends with one.
pub open spec fn strip_last<T>(l: Seq<T>, cr: T) -> Seq<T> {
    if l.len() > 0 && l.last() == cr {
        l.drop_last()
    } else {
        l
    }
}

/// The lines of `s`: pieces split at each `nl`, a `cr` right before an `nl`
/// dropped, and no empty line after a final `nl`.
pub open spec fn lines_of<T>(s: Seq<T>, nl: T, cr: T) -> Seq<Seq<T>>
    decreases s.len(),
{
    if s.len() == 0 {
        seq![]
    } else {
        match first_index_of(s, nl) {
            None => seq![s],
            Some(j) => {
                proof {
                    lemma_first_index_of(s, nl);
                }
                seq![strip_last(s.take(j), cr)] + lines_of(s.skip(j + 1), nl, cr)
            },
        }
    }
}

/// The lines of a text, split as `str::lines` does.
pub open spec fn text_lines(s: Seq<char>) -> Seq<Seq<char>> {
    lines_of(s, '\n', '\r')
}

/// Index of the first `'\n'` in `v[from..]`, or `v.len()`.
fn find_newline(v: &Vec<char>, from: usize) -> (r: usize)
    requires
        from <= v@.len(),
    ensures
        from <= r <= v@.len(),
        r < v@.len() ==> v@[r as int] == '\n',
        forall|k: int| from <= k < r ==> v@[k] != '\n',
{
    let mut k = from;
    while k < v.len() && v[k] != '\n'
        invariant
            from <= k <= v@.len(),
            forall|i: int| from <= i < k ==> v@[i] != '\n',
        decreases v@.len() - k,
    {
        k = k + 1;
    }
    k
}

/// All the lines of a text, split as `str::lines` does.
pub fn lines(content: &str) -> (r: Vec<String>)
    ensures
        strings_view(r@) == text_lines(content@),
{
    let v = chars_of(content);
    let n = v.len();
    let mut out: Vec<String> = Vec::new();
    let mut pos: usize = 0;
    proof {
        assert(v@.skip(0) =~= v@);
    }
    while pos < n
        invariant
            n == v@.len(),
            v@ == content@,
            pos <= n,
            strings_view(out@) + text_lines(v@.skip(pos as int)) == text_lines(v@),
        decreases n - pos,
    {
        let ghost rest = v@.skip(pos as int);
        let e = find_newline(&v, pos);
        let mut end = e;
        if e < n && e > pos && v[e - 1] == '\r' {
            end = e - 1;
        }
        let line = string_of_chars(&v, pos, end);
        proof {
            let j = (e - pos) as int;
            if e < n {
                assert forall|k: int| 0 <= k < j implies rest[k] != '\n' by {
                    assert(rest[k] == v@[k + pos]);
                }
                lemma_first_index_of_is(rest, '\n', j);
                assert(rest.take(j) =~= v@.subrange(pos as int, e as int));
                assert(rest.skip(j + 1) =~= v@.skip(e + 1));
                let t = rest.take(j);
                if t.len() > 0 && t.last() == '\r' {
                    assert(t.drop_last() =~= v@.subrange(pos as int, end as int));
                } else {
                    assert(t =~= v@.subrange(pos as int, end as int));
                }
            } else {
                assert forall|k: int| 0 <= k < rest.len() implies rest[k] != '\n' by {
                    assert(rest[k] == v@[k + pos]);
                }
                lemma_first_index_of_none(rest, '\n');
                assert(rest =~= v@.subrange(pos as int, end as int));
                assert(v@.skip(n as int) =~= Seq::<char>::empty());
            }
        }
        let ghost before = out@;
        out.push(line);
        proof {
            assert(strings_view(out@) =~= strings_view(before).push(line@));
        }
        if e < n {
            pos = e + 1;
        } else {
            pos = n;
        }
        proof {
            assert(strings_view(out@) + text_lines(v@.skip(pos as int)) =~= strings_view(before)
                + text_lines(rest));
        }
    }
    proof {
        assert(v@.skip(n as int) =~= Seq::<char>::empty());
        assert(strings_view(out@) + Seq::<Seq<char>>::empty() =~= strings_view(out@));
    }
    out
}

// ---------------------------------------------------------------------
// Decimal formatting
// ---------------------------------------------------------------------

/// The decimal digit for `d < 10`.
pub open spec fn digit_char(d: nat) -> char {
    (48 + d) as char
}

/// The decimal notation of `n`, without sign or leading zeros.
pub open spec fn decimal(n: nat) -> Seq<char>
    decreases n,
{
    if n < 10 {
        seq![digit_char(n)]
    } else {
        decimal(n / 10).push(digit_char(n % 10))
    }
}

/// Appends the decimal notation of `n` to `out`.
pub fn push_decimal(out: &mut String, n: u64)
    ensures
        final(out)@ == old(out)@ + decimal(n as nat),
    decreases n,
{
    if n >= 10 {
        push_decimal(out, n / 10);
    }
    let d: u8 = (n % 10) as u8;
    push_char(out, (48u8 + d) as char);
    proof {
        if n < 10 {
            assert(decimal(n as nat) =~= seq![digit_char(n as nat)]);
        }
    }
}

/// The decimal notation of `n` (as `n.to_string()`).
pub fn decimal_string(n: u64) -> (r: String)
    ensures
        r@ == decimal(n as nat),
{
    let mut r = String::new();
    push_decimal(&mut r, n);
    assert(r@ =~= decimal(n as nat));
    r
}

// ---------------------------------------------------------------------
// Joining
// ---------------------------------------------------------------------

/// The pieces of `list` with `sep` between consecutive ones.
pub open spec fn joined(list: Seq<Seq<char>>, sep: Seq<char>) -> Seq<char>
    decreases list.len(),
{
    if list.len() == 0 {
        seq![]
    } else if list.len() == 1 {
        list[0]
    } else {
        joined(list.drop_last(), sep) + sep + list.last()
    }
}

/// `list` joined with `sep` between the pieces (as `[String]::join`).
pub fn join(list: &Vec<String>, sep: &str) -> (r: String)
    ensures
        r@ == joined(strings_view(list@), sep@),
{
    let mut r = String::new();
    let ghost view = strings_view(list@);
    let mut i: usize = 0;
    while i < list.len()
        invariant
            i <= list@.len(),
            view == strings_view(list@),
            r@ == joined(view.take(i as int), sep@),
        decreases list@.len() - i,
    {
        proof {
            assert(view.take(i + 1).drop_last() =~= view.take(i as int));
            assert(view.take(i + 1).last() == list@[i as int]@);
        }
        if i > 0 {
            r.append(sep);
        } else {
            assert(view.take(1) =~= seq![list@[0]@]);
        }
        r.append(list[i].as_str());
        i = i + 1;
    }
    assert(view.take(list@.len() as int) =~= view);
    r
}


// ---------------------------------------------------------------------
// Laws of the text helpers
// ---------------------------------------------------------------------

proof fn lemma_trim_start_index(s: Seq<char>) -> (a: int)
    ensures
        0 <= a <= s.len(),
        trim_start_ws(s) == s.skip(a),
        forall|k: int| 0 <= k < a ==> is_white_space(#[trigger] s[k]),
        a < s.len() ==> !is_white_space(s[a]),
    decreases s.len(),
{
    if s.len() > 0 && is_white_space(s[0]) {
        let a0 = lemma_trim_start_index(s.drop_first());
        assert(s.drop_first().skip(a0) =~= s.skip(a0 + 1));
        assert forall|k: int| 0 <= k < a0 + 1 implies is_white_space(#[trigger] s[k]) by {
            if k > 0 {
                assert(s[k] == s.drop_first()[k - 1]);
            }
        }
        if a0 + 1 < s.len() {
            assert(s[a0 + 1] == s.drop_first()[a0]);
        }
        a0 + 1
    } else {
        assert(s.skip(0) =~= s);
        0
    }
}

proof fn lemma_trim_end_index(s: Seq<char>) -> (b: int)
    ensures
        0 <= b <= s.len(),
        trim_end_ws(s) == s.take(b),
        forall|k: int| b <= k < s.len() ==> is_white_space(#[trigger] s[k]),
        b > 0 ==> !is_white_space(s[b - 1]),
    decreases s.len(),
{
    if s.len() > 0 && is_white_space(s.last()) {
        let b0 = lemma_trim_end_index(s.drop_last());
        assert(s.drop_last().take(b0) =~= s.take(b0));
        assert forall|k: int| b0 <= k < s.len() implies is_white_space(#[trigger] s[k]) by {
            if k < s.len() - 1 {
                assert(s[k] == s.drop_last()[k]);
            }
        }
        if b0 > 0 {
            assert(s[b0 - 1] == s.drop_last()[b0 - 1]);
        }
        b0
    } else {
        assert(s.take(s.len() as int) =~= s);
        s.len() as int
    }
}

/// Trimming removes white space at both ends and nothing else: the result is
/// `s[a..b]`, all of `s` outside it is white space, and it neither starts nor
/// ends with white space.
pub proof fn law_trim_removes_only_outer_white_space(s: Seq<char>) -> (ab: (int, int))
    ensures
        0 <= ab.0 <= ab.1 <= s.len(),
        trim_ws(s) == s.subrange(ab.0, ab.1),
        forall|k: int| 0 <= k < s.len() && !(ab.0 <= k < ab.1) ==> is_white_space(#[trigger] s[k]),
        ab.0 < ab.1 ==> !is_white_space(s[ab.0]) && !is_white_space(s[ab.1 - 1]),
{
    let a = lemma_trim_start_index(s);
    let t = s.skip(a);
    let b = lemma_trim_end_index(t);
    assert(t.take(b) =~= s.subrange(a, a + b));
    if b == 0 && t.len() > 0 {
        assert(t[0] == s[a]);
        assert(is_white_space(t[0]));
    }
    assert forall|k: int| 0 <= k < s.len() && !(a <= k < a + b) implies is_white_space(
        #[trigger] s[k],
    ) by {
        if k >= a + b {
            assert(s[k] == t[k - a]);
        }
    }
    if b > 0 {
        assert(s[a] == t[0]);
        assert(s[a + b - 1] == t[b - 1]);
    }
    (a, a + b)
}

/// The value of a run of decimal digit characters.
pub open spec fn chars_value(d: Seq<char>) -> int
    decreases d.len(),
{
    if d.len() == 0 {
        0
    } else {
        chars_value(d.drop_last()) * 10 + (d.last() as int - 48)
    }
}

/// The decimal notation of `n` is a run of digits `0-9` that reads back as
/// `n`, with no leading zero (but for `0` itself).
pub proof fn law_decimal_reads_back(n: nat)
    ensures
        decimal(n).len() > 0,
        forall|j: int| 0 <= j < decimal(n).len() ==> '0' <= #[trigger] decimal(n)[j] <= '9',
        chars_value(decimal(n)) == n,
        decimal(n)[0] == '0' ==> n == 0 && decimal(n).len() == 1,
    decreases n,
{
    assert((n % 10) < 10);
    assert(digit_char(n % 10) as int == 48 + n % 10);
    if n < 10 {
        assert(decimal(n) =~= seq![digit_char(n)]);
        let one = seq![digit_char(n)];
        assert(one.drop_last() =~= Seq::<char>::empty());
        assert(chars_value(one) == chars_value(one.drop_last()) * 10 + (one.last() as int - 48));
        assert(chars_value(Seq::<char>::empty()) == 0);
    } else {
        law_decimal_reads_back(n / 10);
        let d = decimal(n / 10);
        let e = d.push(digit_char(n % 10));
        assert(e.drop_last() =~= d);
        assert(chars_value(e) == chars_value(d) * 10 + (e.last() as int - 48));
        assert(e.last() == digit_char(n % 10));
        assert(n == (n / 10) * 10 + n % 10);
        assert forall|j: int| 0 <= j < e.len() implies '0' <= #[trigger] e[j] <= '9' by {
            if j < d.len() {
                assert(e[j] == d[j]);
            }
        }
        assert(e[0] == d[0]);
    }
}

/// No line holds a line break, and a text has no lines exactly when it is
/// empty.
pub proof fn law_lines_hold_no_break<T>(s: Seq<T>, nl: T, cr: T)
    ensures
        forall|i: int, k: int|
            0 <= i < lines_of(s, nl, cr).len() && 0 <= k < lines_of(s, nl, cr)[i].len()
                ==> #[trigger] lines_of(s, nl, cr)[i][k] != nl,
        lines_of(s, nl, cr).len() == 0 <==> s.len() == 0,
    decreases s.len(),
{
    if s.len() > 0 {
        lemma_first_index_of(s, nl);
        match first_index_of(s, nl) {
            None => {
                assert(lines_of(s, nl, cr) == seq![s]);
            },
            Some(j) => {
                law_lines_hold_no_break(s.skip(j + 1), nl, cr);
                let first = strip_last(s.take(j), cr);
                let rest = lines_of(s.skip(j + 1), nl, cr);
                let l = lines_of(s, nl, cr);
                assert(l == seq![first] + rest);
                assert forall|i: int, k: int|
                    0 <= i < l.len() && 0 <= k < l[i].len() implies #[trigger] l[i][k] != nl by {
                    if i == 0 {
                        assert(l[0] == first);
                        assert(first[k] == s[k]);
                    } else {
                        assert(l[i] == rest[i - 1]);
                    }
                }
            },
        }
    }
}


/// White space is tab, line feed, vertical tab, form feed, carriage return,
/// space, next line, no-break space, ogham space, the spaces U+2000 to
/// U+200A, line and paragraph separators, narrow no-break space, medium
/// mathematical space and ideographic space: nothing else.
pub proof fn law_white_space_chars(c: char)
    ensures
        is_white_space(c) <==> (c == '\t' || c == '\n' || c == '\u{0b}' || c == '\u{0c}' || c
            == '\r' || c == ' ' || c == '\u{85}' || c == '\u{a0}' || c == '\u{1680}' || ('\u{2000}'
            <= c && c <= '\u{200a}') || c == '\u{2028}' || c == '\u{2029}' || c == '\u{202f}' || c
            == '\u{205f}' || c == '\u{3000}'),
{
}

} // verus!
