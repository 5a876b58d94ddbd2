//! The list of WeChat processes, read from the CSV that PowerShell prints
//! (`"Id","WS"` header, then one `"pid","working set bytes"` row per process),
//! ordered by memory, largest first.
use vstd::prelude::*;
use vstd::string::StringExecFns;

use crate::text::{chars_value, decimal, law_decimal_reads_back, first_index_of, lemma_first_index_of_is, lemma_first_index_of_none, lines_of};

verus! {

broadcast use vstd::seq_lib::group_to_multiset_ensures;

pub open spec fn byte_newline() -> u8 {
    0x0au8
}

pub open spec fn byte_cr() -> u8 {
    0x0du8
}

pub open spec fn byte_comma() -> u8 {
    0x2cu8
}

pub open spec fn byte_dquote() -> u8 {
    0x22u8
}

pub open spec fn byte_plus() -> u8 {
    0x2bu8
}

/// The lines of a byte text, split as `str::lines` splits the text.
pub open spec fn byte_lines(s: Seq<u8>) -> Seq<Seq<u8>> {
    lines_of(s, byte_newline(), byte_cr())
}

/// `s` without its leading double quotes.
pub open spec fn strip_leading_quotes(s: Seq<u8>) -> Seq<u8>
    decreases s.len(),
{
    if s.len() > 0 && s[0] == byte_dquote() {
        strip_leading_quotes(s.drop_first())
    } else {
        s
    }
}

/// `s` without its trailing double quotes.
pub open spec fn strip_trailing_quotes(s: Seq<u8>) -> Seq<u8>
    decreases s.len(),
{
    if s.len() > 0 && s.last() == byte_dquote() {
        strip_trailing_quotes(s.drop_last())
    } else {
        s
    }
}

/// `s` without leading and trailing double quotes (`trim_matches('"')`).
pub open spec fn strip_quotes(s: Seq<u8>) -> Seq<u8> {
    strip_trailing_quotes(strip_leading_quotes(s))
}

pub open spec fn is_digit(c: u8) -> bool {
    0x30 <= c <= 0x39
}

/// The value of a run of decimal digits.
pub open spec fn digits_value(d: Seq<u8>) -> int
    decreases d.len(),
{
    if d.len() == 0 {
        0
    } else {
        digits_value(d.drop_last()) * 10 + (d.last() - 0x30)
    }
}

/// `s` without one leading `+`.
pub open spec fn sign_stripped(s: Seq<u8>) -> Seq<u8> {
    if s.len() > 0 && s[0] == byte_plus() {
        s.drop_first()
    } else {
        s
    }
}

/// At least one digit, all digits, value no larger than `max`.
pub open spec fn digits_number(d: Seq<u8>, max: int) -> Option<int> {
    if d.len() > 0 && (forall|k: int| 0 <= k < d.len() ==> is_digit(#[trigger] d[k]))
        && digits_value(d) <= max {
        Some(digits_value(d))
    } else {
        None
    }
}

/// An unsigned decimal number no larger than `max`, as `str::parse` reads
/// one: an optional `+`, then at least one digit, nothing else.
pub open spec fn parse_unsigned(s: Seq<u8>, max: int) -> Option<int> {
    digits_number(sign_stripped(s), max)
}


/// The bytes of a text of ASCII characters.
pub open spec fn ascii_bytes(s: Seq<char>) -> Seq<u8> {
    s.map_values(|c: char| c as u8)
}

proof fn lemma_digits_value_of_chars(d: Seq<char>)
    requires
        forall|j: int| 0 <= j < d.len() ==> '0' <= #[trigger] d[j] <= '9',
    ensures
        digits_value(ascii_bytes(d)) == chars_value(d),
        forall|j: int| 0 <= j < d.len() ==> is_digit(#[trigger] ascii_bytes(d)[j]),
    decreases d.len(),
{
    if d.len() > 0 {
        lemma_digits_value_of_chars(d.drop_last());
        assert(ascii_bytes(d).drop_last() =~= ascii_bytes(d.drop_last()));
        assert(ascii_bytes(d).last() == d.last() as u8);
    }
    assert forall|j: int| 0 <= j < d.len() implies is_digit(#[trigger] ascii_bytes(d)[j]) by {
        assert(ascii_bytes(d)[j] == d[j] as u8);
    }
}

/// A number written in decimal reads back as itself when it is no larger
/// than `max`, and as nothing otherwise.
pub proof fn law_parse_reads_decimal(n: nat, max: int)
    ensures
        parse_unsigned(ascii_bytes(decimal(n)), max) == (if n <= max {
            Some(n as int)
        } else {
            None
        }),
{
    law_decimal_reads_back(n);
    lemma_digits_value_of_chars(decimal(n));
    let b = ascii_bytes(decimal(n));
    assert(b[0] == decimal(n)[0] as u8);
    assert(sign_stripped(b) == b);
}

/// The process that one CSV row describes: its first field parsed as a
/// `u32` pid, its second as a `usize` memory size (0 when it does not
/// parse). No process when the row has a single field or the pid does not
/// parse.
pub open spec fn process_entry(line: Seq<u8>) -> Option<(u32, usize)> {
    match first_index_of(line, byte_comma()) {
        None => None,
        Some(c1) => {
            let rest = line.skip(c1 + 1);
            let second = match first_index_of(rest, byte_comma()) {
                Some(c2) => rest.take(c2),
                None => rest,
            };
            match parse_unsigned(strip_quotes(line.take(c1)), u32::MAX as int) {
                None => None,
                Some(pid) => Some(
                    (
                        pid as u32,
                        match parse_unsigned(strip_quotes(second), usize::MAX as int) {
                            Some(m) => m as usize,
                            None => 0usize,
                        },
                    ),
                ),
            }
        },
    }
}

/// The processes of a sequence of rows, in order.
pub open spec fn process_entries(lines: Seq<Seq<u8>>) -> Seq<(u32, usize)>
    decreases lines.len(),
{
    if lines.len() == 0 {
        seq![]
    } else {
        let prev = process_entries(lines.drop_last());
        match process_entry(lines.last()) {
            Some(e) => prev.push(e),
            None => prev,
        }
    }
}

/// The processes listed in the output, the header line skipped.
pub open spec fn listed_processes(out: Seq<u8>) -> Seq<(u32, usize)> {
    let lines = byte_lines(out);
    if lines.len() == 0 {
        seq![]
    } else {
        process_entries(lines.skip(1))
    }
}

/// How many entries at the front of `s` use at least `m` bytes.
pub open spec fn memory_prefix(s: Seq<(u32, usize)>, m: usize) -> int
    decreases s.len(),
{
    if s.len() > 0 && s[0].1 >= m {
        1 + memory_prefix(s.drop_first(), m)
    } else {
        0
    }
}

/// `x` inserted after the entries at the front of `sorted` that use at least
/// as much memory.
pub open spec fn insert_by_memory(sorted: Seq<(u32, usize)>, x: (u32, usize)) -> Seq<
    (u32, usize),
> {
    sorted.insert(memory_prefix(sorted, x.1), x)
}

/// `s` ordered by memory, largest first; entries with equal memory keep
/// their order (a stable sort).
pub open spec fn sorted_by_memory(s: Seq<(u32, usize)>) -> Seq<(u32, usize)>
    decreases s.len(),
{
    if s.len() == 0 {
        s
    } else {
        insert_by_memory(sorted_by_memory(s.drop_last()), s.last())
    }
}

/// Memory never grows along `s`.
pub open spec fn memory_descending(s: Seq<(u32, usize)>) -> bool {
    forall|i: int, j: int| 0 <= i <= j < s.len() ==> (#[trigger] s[i]).1 >= (#[trigger] s[j]).1
}

/// The lines of a byte text, split as `str::lines` does.
fn split_byte_lines(v: &[u8]) -> (r: Vec<Vec<u8>>)
    ensures
        r@.map_values(|l: Vec<u8>| l@) == byte_lines(v@),
{
    let n = v.len();
    let mut out: Vec<Vec<u8>> = Vec::new();
    let mut pos: usize = 0;
    proof {
        assert(v@.skip(0) =~= v@);
    }
    while pos < n
        invariant
            n == v@.len(),
            pos <= n,
            out@.map_values(|l: Vec<u8>| l@) + byte_lines(v@.skip(pos as int)) == byte_lines(v@),
        decreases n - pos,
    {
        let ghost rest = v@.skip(pos as int);
        let mut e = pos;
        while e < n && v[e] != 0x0au8
            invariant
                pos <= e <= n,
                n == v@.len(),
                forall|i: int| pos <= i < e ==> v@[i] != byte_newline(),
            decreases n - e,
        {
            e = e + 1;
        }
        let mut end = e;
        if e < n && e > pos && v[e - 1] == 0x0du8 {
            end = e - 1;
        }
        let mut line: Vec<u8> = Vec::new();
        let mut k = pos;
        while k < end
            invariant
                pos <= k <= end <= n,
                n == v@.len(),
                line@ == v@.subrange(pos as int, k as int),
            decreases end - k,
        {
            line.push(v[k]);
            assert(line@ =~= v@.subrange(pos as int, k + 1));
            k = k + 1;
        }
        proof {
            let j = (e - pos) as int;
            if e < n {
                assert forall|k: int| 0 <= k < j implies rest[k] != byte_newline() by {
                    assert(rest[k] == v@[k + pos]);
                }
                lemma_first_index_of_is(rest, byte_newline(), j);
                assert(rest.take(j) =~= v@.subrange(pos as int, e as int));
                assert(rest.skip(j + 1) =~= v@.skip(e + 1));
                let t = rest.take(j);
                if t.len() > 0 && t.last() == byte_cr() {
                    assert(t.drop_last() =~= v@.subrange(pos as int, end as int));
                } else {
                    assert(t =~= v@.subrange(pos as int, end as int));
                }
            } else {
                assert forall|k: int| 0 <= k < rest.len() implies rest[k] != byte_newline() by {
                    assert(rest[k] == v@[k + pos]);
                }
                lemma_first_index_of_none(rest, byte_newline());
                assert(rest =~= v@.subrange(pos as int, end as int));
                assert(v@.skip(n as int) =~= Seq::<u8>::empty());
            }
        }
        let ghost before = out@.map_values(|l: Vec<u8>| l@);
        let ghost lv = line@;
        out.push(line);
        proof {
            assert(out@.map_values(|l: Vec<u8>| l@) =~= before.push(lv));
        }
        if e < n {
            pos = e + 1;
        } else {
            pos = n;
        }
        proof {
            assert(out@.map_values(|l: Vec<u8>| l@) + byte_lines(v@.skip(pos as int)) =~= before
                + byte_lines(rest));
        }
    }
    proof {
        assert(v@.skip(n as int) =~= Seq::<u8>::empty());
        assert(out@.map_values(|l: Vec<u8>| l@) + Seq::<Seq<u8>>::empty() =~= out@.map_values(
            |l: Vec<u8>| l@,
        ));
    }
    out
}

/// Index of the first comma of `line[from..]`, if any.
fn find_comma(line: &Vec<u8>, from: usize) -> (r: Option<usize>)
    requires
        from <= line@.len(),
    ensures
        (match r {
            Some(c) => Some(c - from),
            None => None,
        }) == first_index_of(line@.skip(from as int), byte_comma()),
        r matches Some(c) ==> from <= c < line@.len(),
{
    let ghost rest = line@.skip(from as int);
    let mut k = from;
    while k < line.len()
        invariant
            from <= k <= line@.len(),
            rest == line@.skip(from as int),
            forall|i: int| 0 <= i < k - from ==> rest[i] != byte_comma(),
        decreases line@.len() - k,
    {
        if line[k] == 0x2cu8 {
            proof {
                lemma_first_index_of_is(rest, byte_comma(), k - from);
            }
            return Some(k);
        }
        k = k + 1;
    }
    proof {
        lemma_first_index_of_none(rest, byte_comma());
    }
    None
}

proof fn lemma_strip_leading(s: Seq<u8>, a: int)
    requires
        0 <= a <= s.len(),
        forall|k: int| 0 <= k < a ==> #[trigger] s[k] == byte_dquote(),
    ensures
        strip_leading_quotes(s) == strip_leading_quotes(s.skip(a)),
    decreases a,
{
    if a > 0 {
        lemma_strip_leading(s.drop_first(), a - 1);
        assert(s.drop_first().skip(a - 1) =~= s.skip(a));
    } else {
        assert(s.skip(0) =~= s);
    }
}

proof fn lemma_strip_trailing(s: Seq<u8>, b: int)
    requires
        0 <= b <= s.len(),
        forall|k: int| b <= k < s.len() ==> #[trigger] s[k] == byte_dquote(),
    ensures
        strip_trailing_quotes(s) == strip_trailing_quotes(s.take(b)),
    decreases s.len() - b,
{
    if b < s.len() {
        lemma_strip_trailing(s.drop_last(), b);
        assert(s.drop_last().take(b) =~= s.take(b));
    } else {
        assert(s.take(b) =~= s);
    }
}

/// The bounds of `line[from..to]` once its double quotes at both ends are
/// stripped.
fn strip_quote_bounds(line: &Vec<u8>, from: usize, to: usize) -> (r: (usize, usize))
    requires
        from <= to <= line@.len(),
    ensures
        from <= r.0 <= r.1 <= to,
        line@.subrange(r.0 as int, r.1 as int) == strip_quotes(
            line@.subrange(from as int, to as int),
        ),
{
    let ghost s = line@.subrange(from as int, to as int);
    let mut a = from;
    while a < to && line[a] == 0x22u8
        invariant
            from <= a <= to <= line@.len(),
            s == line@.subrange(from as int, to as int),
            forall|k: int| 0 <= k < a - from ==> #[trigger] s[k] == byte_dquote(),
        decreases to - a,
    {
        a = a + 1;
    }
    proof {
        lemma_strip_leading(s, a - from);
        assert(s.skip(a - from) =~= line@.subrange(a as int, to as int));
        let t = line@.subrange(a as int, to as int);
        if t.len() > 0 {
            assert(t[0] == line@[a as int]);
        }
        assert(strip_leading_quotes(t) == t);
    }
    let mut b = to;
    while b > a && line[b - 1] == 0x22u8
        invariant
            from <= a <= b <= to <= line@.len(),
            forall|k: int| b <= k < to ==> #[trigger] line@[k] == byte_dquote(),
        decreases b - a,
    {
        b = b - 1;
    }
    proof {
        let t = line@.subrange(a as int, to as int);
        assert forall|k: int| (b - a) <= k < t.len() implies #[trigger] t[k] == byte_dquote() by {
            assert(t[k] == line@[k + a]);
        }
        lemma_strip_trailing(t, b - a);
        let u = t.take(b - a);
        assert(u =~= line@.subrange(a as int, b as int));
        if u.len() > 0 {
            assert(u.last() == line@[b - 1]);
        }
    }
    (a, b)
}

proof fn lemma_digits_value_take(d: Seq<u8>, k: int)
    requires
        0 <= k < d.len(),
    ensures
        digits_value(d.take(k + 1)) == digits_value(d.take(k)) * 10 + (d[k] - 0x30),
{
    assert(d.take(k + 1).drop_last() =~= d.take(k));
}

proof fn lemma_digits_value_grows(d: Seq<u8>, j: int)
    requires
        0 <= j <= d.len(),
        forall|k: int| 0 <= k < d.len() ==> is_digit(#[trigger] d[k]),
    ensures
        digits_value(d.take(j)) <= digits_value(d),
        digits_value(d.take(j)) >= 0,
    decreases d.len() - j,
{
    if j < d.len() {
        lemma_digits_value_grows(d, j + 1);
        lemma_digits_value_take(d, j);
        assert(is_digit(d[j]));
        assert(digits_value(d.take(j)) >= 0) by {
            lemma_digits_nonneg(d.take(j));
        }
        assert(digits_value(d.take(j)) <= digits_value(d.take(j)) * 10) by (nonlinear_arith)
            requires
                digits_value(d.take(j)) >= 0,
        ;
    } else {
        assert(d.take(j) =~= d);
        lemma_digits_nonneg(d);
    }
}

proof fn lemma_digits_nonneg(d: Seq<u8>)
    requires
        forall|k: int| 0 <= k < d.len() ==> is_digit(#[trigger] d[k]),
    ensures
        digits_value(d) >= 0,
    decreases d.len(),
{
    if d.len() > 0 {
        assert(is_digit(d.last()));
        lemma_digits_nonneg(d.drop_last());
    }
}

/// Parses `line[from..to]` as an unsigned decimal number no larger than `max`.
fn parse_unsigned_at(line: &Vec<u8>, from: usize, to: usize, max: u64) -> (r: Option<u64>)
    requires
        from <= to <= line@.len(),
    ensures
        (match r {
            Some(v) => Some(v as int),
            None => None,
        }) == parse_unsigned(line@.subrange(from as int, to as int), max as int),
{
    let ghost s = line@.subrange(from as int, to as int);
    let mut start = from;
    if from < to && line[from] == 0x2bu8 {
        start = from + 1;
    }
    let ghost d = line@.subrange(start as int, to as int);
    proof {
        if from < to {
            assert(s[0] == line@[from as int]);
        }
        assert(sign_stripped(s) =~= d);
    }
    if start == to {
        return None;
    }
    let mut acc: u64 = 0;
    let mut k = start;
    assert(d.take(0) =~= Seq::<u8>::empty());
    while k < to
        invariant
            from <= start <= k <= to <= line@.len(),
            d == line@.subrange(start as int, to as int),
            s == line@.subrange(from as int, to as int),
            acc as int == digits_value(d.take(k - start)),
            acc <= max,
            forall|i: int| 0 <= i < k - start ==> is_digit(#[trigger] d[i]),
            parse_unsigned(s, max as int) == digits_number(d, max as int),
        decreases to - k,
    {
        let c = line[k];
        assert(d[k - start] == c);
        if c < 0x30 || c > 0x39 {
            return None;
        }
        let digit: u64 = (c - 0x30) as u64;
        proof {
            lemma_digits_value_take(d, k - start);
        }
        if digit > max {
            proof {
                if forall|i: int| 0 <= i < d.len() ==> is_digit(#[trigger] d[i]) {
                    lemma_digits_value_grows(d, k - start + 1);
                    lemma_digits_nonneg(d.take(k - start));
                }
            }
            return None;
        }
        if acc > (max - digit) / 10 {
            proof {
                assert(acc * 10 + digit > max) by (nonlinear_arith)
                    requires
                        acc > (max - digit) / 10,
                        digit <= max,
                ;
                if forall|i: int| 0 <= i < d.len() ==> is_digit(#[trigger] d[i]) {
                    lemma_digits_value_grows(d, k - start + 1);
                }
            }
            return None;
        }
        proof {
            assert(acc * 10 + digit <= max) by (nonlinear_arith)
                requires
                    acc <= (max - digit) / 10,
                    digit <= max,
            ;
        }
        acc = acc * 10 + digit;
        k = k + 1;
    }
    proof {
        assert(d.take(d.len() as int) =~= d);
    }
    Some(acc)
}

/// The process that one CSV row describes (see `process_entry`).
pub fn parse_process_line(line: &Vec<u8>) -> (r: Option<(u32, usize)>)
    ensures
        r == process_entry(line@),
{
    let ghost l = line@;
    let n = line.len();
    proof {
        assert(l.skip(0) =~= l);
    }
    let c1 = match find_comma(line, 0) {
        None => {
            return None;
        },
        Some(c) => c,
    };
    let ghost rest = l.skip(c1 + 1);
    let end2 = match find_comma(line, c1 + 1) {
        Some(c2) => c2,
        None => n,
    };
    proof {
        match first_index_of(rest, byte_comma()) {
            Some(c2) => {
                assert(rest.take(c2) =~= l.subrange(c1 + 1, end2 as int));
            },
            None => {
                assert(rest =~= l.subrange(c1 + 1, end2 as int));
            },
        }
        assert(l.take(c1 as int) =~= l.subrange(0, c1 as int));
    }
    let (a0, b0) = strip_quote_bounds(line, 0, c1);
    let pid = match parse_unsigned_at(line, a0, b0, 4294967295u64) {
        None => {
            return None;
        },
        Some(p) => p,
    };
    let (a1, b1) = strip_quote_bounds(line, c1 + 1, end2);
    let mem: usize = match parse_unsigned_at(line, a1, b1, usize::MAX as u64) {
        Some(m) => m as usize,
        None => 0,
    };
    Some((pid as u32, mem))
}

/// The position at which an entry using `m` bytes goes into `sorted`.
fn memory_position(sorted: &Vec<(u32, usize)>, m: usize) -> (r: usize)
    ensures
        r == memory_prefix(sorted@, m),
        r <= sorted@.len(),
{
    let mut k: usize = 0;
    while k < sorted.len() && sorted[k].1 >= m
        invariant
            k <= sorted@.len(),
            forall|i: int| 0 <= i < k ==> (#[trigger] sorted@[i]).1 >= m,
        decreases sorted@.len() - k,
    {
        k = k + 1;
    }
    proof {
        lemma_memory_prefix_at(sorted@, m, k as int);
    }
    k
}

proof fn lemma_memory_prefix_at(s: Seq<(u32, usize)>, m: usize, k: int)
    requires
        0 <= k <= s.len(),
        forall|i: int| 0 <= i < k ==> (#[trigger] s[i]).1 >= m,
        k < s.len() ==> s[k].1 < m,
    ensures
        memory_prefix(s, m) == k,
    decreases k,
{
    if k > 0 {
        assert forall|i: int| 0 <= i < k - 1 implies (#[trigger] s.drop_first()[i]).1 >= m by {
            assert(s.drop_first()[i] == s[i + 1]);
        }
        if k < s.len() {
            assert(s.drop_first()[k - 1] == s[k]);
        }
        lemma_memory_prefix_at(s.drop_first(), m, k - 1);
        assert(s[0].1 >= m);
    }
}

/// The processes listed in PowerShell's CSV output (header line skipped),
/// ordered by memory, largest first; no output gives no process.
pub fn parse_wechat_pids(output: Option<&[u8]>) -> (r: Vec<(u32, usize)>)
    ensures
        r@ == match output {
            Some(out) => sorted_by_memory(listed_processes(out@)),
            None => Seq::<(u32, usize)>::empty(),
        },
        output matches Some(out) ==> r@.to_multiset() == listed_processes(out@).to_multiset()
            && memory_descending(r@),
{
    let out = match output {
        None => {
            return Vec::new();
        },
        Some(o) => o,
    };
    proof {
        law_sorted_by_memory_permutes(listed_processes(out@));
        law_sorted_by_memory_descends(listed_processes(out@));
    }
    let lines = split_byte_lines(out);
    let ghost lv = lines@.map_values(|l: Vec<u8>| l@);
    if lines.len() == 0 {
        return Vec::new();
    }
    let ghost body = lv.skip(1);
    let mut pids: Vec<(u32, usize)> = Vec::new();
    let mut i: usize = 1;
    assert(body.take(0) =~= Seq::<Seq<u8>>::empty());
    while i < lines.len()
        invariant
            1 <= i <= lines@.len(),
            lv == lines@.map_values(|l: Vec<u8>| l@),
            body == lv.skip(1),
            pids@ == sorted_by_memory(process_entries(body.take(i - 1))),
        decreases lines@.len() - i,
    {
        proof {
            assert(body.take(i as int).drop_last() =~= body.take(i - 1));
            assert(body.take(i as int).last() == lines@[i as int]@);
        }
        let ghost prev = process_entries(body.take(i - 1));
        match parse_process_line(&lines[i]) {
            Some(e) => {
                let k = memory_position(&pids, e.1);
                pids.insert(k, e);
                proof {
                    assert(process_entries(body.take(i as int)) == prev.push(e));
                    assert(prev.push(e).drop_last() =~= prev);
                }
            },
            None => {
                assert(process_entries(body.take(i as int)) == prev);
            },
        }
        i = i + 1;
    }
    proof {
        assert(body.take(lines@.len() - 1) =~= body);
    }
    pids
}


/// Row indices `idx` list exactly the rows of `ls` that describe a process:
/// strictly increasing, each such row once, and `ps[j]` is the process of
/// row `idx[j]`.
pub open spec fn lists_described_rows(ls: Seq<Seq<u8>>, ps: Seq<(u32, usize)>, idx: Seq<int>) -> bool {
    &&& idx.len() == ps.len()
    &&& forall|j: int|
        0 <= j < idx.len() ==> 0 <= #[trigger] idx[j] < ls.len() && process_entry(ls[idx[j]])
            == Some(ps[j])
    &&& forall|a: int, b: int| 0 <= a < b < idx.len() ==> #[trigger] idx[a] < #[trigger] idx[b]
    &&& forall|k: int|
        0 <= k < ls.len() && (#[trigger] process_entry(ls[k])) is Some ==> exists|j: int|
            0 <= j < idx.len() && #[trigger] idx[j] == k
}

/// Every row that describes a process gives one process, in row order, and
/// no other row gives one: the rows are neither dropped nor repeated.
pub proof fn law_every_described_row_is_listed(ls: Seq<Seq<u8>>) -> (idx: Seq<int>)
    ensures
        lists_described_rows(ls, process_entries(ls), idx),
    decreases ls.len(),
{
    if ls.len() == 0 {
        Seq::empty()
    } else {
        let init = ls.drop_last();
        let idx0 = law_every_described_row_is_listed(init);
        let pe = process_entries(init);
        let last = ls.len() - 1;
        assert forall|k: int| 0 <= k < init.len() implies init[k] == ls[k] by {}
        match process_entry(ls.last()) {
            Some(e) => {
                let idx = idx0.push(last);
                let ps = pe.push(e);
                assert(process_entries(ls) == ps);
                assert forall|j: int| 0 <= j < idx.len() implies 0 <= #[trigger] idx[j] < ls.len()
                    && process_entry(ls[idx[j]]) == Some(ps[j]) by {
                    if j < idx0.len() {
                        assert(idx[j] == idx0[j]);
                        assert(init[idx0[j]] == ls[idx0[j]]);
                    }
                }
                assert forall|k: int|
                    0 <= k < ls.len() && (#[trigger] process_entry(ls[k])) is Some implies exists|
                    j: int|
                    0 <= j < idx.len() && #[trigger] idx[j] == k by {
                    if k < last {
                        assert(init[k] == ls[k]);
                        assert(process_entry(init[k]) is Some);
                        let j = choose|j: int| 0 <= j < idx0.len() && #[trigger] idx0[j] == k;
                        assert(idx[j] == k);
                    } else {
                        assert(idx[idx0.len() as int] == k);
                    }
                }
                idx
            },
            None => {
                assert(process_entries(ls) == pe);
                assert forall|j: int| 0 <= j < idx0.len() implies 0 <= #[trigger] idx0[j] < ls.len()
                    && process_entry(ls[idx0[j]]) == Some(pe[j]) by {
                    assert(init[idx0[j]] == ls[idx0[j]]);
                }
                assert forall|k: int|
                    0 <= k < ls.len() && (#[trigger] process_entry(ls[k])) is Some implies exists|
                    j: int|
                    0 <= j < idx0.len() && #[trigger] idx0[j] == k by {
                    if k < last {
                        assert(init[k] == ls[k]);
                        assert(process_entry(init[k]) is Some);
                    }
                }
                idx0
            },
        }
    }
}

/// Every row after the header of PowerShell's output that describes a
/// process gives one process of the list, in row order, and no other row
/// gives one (row `idx[j] + 1` of the output gives process `j`).
pub proof fn law_every_listed_process_is_a_row(out: Seq<u8>) -> (idx: Seq<int>)
    ensures
        byte_lines(out).len() > 0 ==> lists_described_rows(
            byte_lines(out).skip(1),
            listed_processes(out),
            idx,
        ),
        byte_lines(out).len() == 0 ==> listed_processes(out).len() == 0,
{
    if byte_lines(out).len() > 0 {
        law_every_described_row_is_listed(byte_lines(out).skip(1))
    } else {
        Seq::empty()
    }
}

// ---------------------------------------------------------------------
// Laws of the ordering
// ---------------------------------------------------------------------

proof fn lemma_insert_keeps_descending(s: Seq<(u32, usize)>, x: (u32, usize))
    requires
        memory_descending(s),
    ensures
        memory_descending(insert_by_memory(s, x)),
{
    let k = memory_prefix(s, x.1);
    lemma_memory_prefix_bounds(s, x.1);
    let r = insert_by_memory(s, x);
    assert forall|i: int, j: int| 0 <= i <= j < r.len() implies (#[trigger] r[i]).1 >= (
    #[trigger] r[j]).1 by {
        if i < k {
            assert(r[i] == s[i]);
        } else if i == k {
            assert(r[i] == x);
            if j > k {
                assert(r[j] == s[j - 1]);
                assert(s[k].1 < x.1);
            }
        } else {
            assert(r[i] == s[i - 1] && r[j] == s[j - 1]);
        }
        if j < k {
            assert(r[j] == s[j]);
        } else if j == k && i < k {
            assert(r[j] == x);
            assert(s[i].1 >= x.1);
        }
    }
}

proof fn lemma_memory_prefix_bounds(s: Seq<(u32, usize)>, m: usize)
    ensures
        0 <= memory_prefix(s, m) <= s.len(),
        forall|i: int| 0 <= i < memory_prefix(s, m) ==> (#[trigger] s[i]).1 >= m,
        memory_prefix(s, m) < s.len() ==> s[memory_prefix(s, m)].1 < m,
    decreases s.len(),
{
    if s.len() > 0 && s[0].1 >= m {
        lemma_memory_prefix_bounds(s.drop_first(), m);
        assert forall|i: int| 0 <= i < memory_prefix(s, m) implies (#[trigger] s[i]).1 >= m by {
            if i > 0 {
                assert(s[i] == s.drop_first()[i - 1]);
            }
        }
    }
}

/// The process list is ordered by memory, largest first.
pub proof fn law_sorted_by_memory_descends(s: Seq<(u32, usize)>)
    ensures
        memory_descending(sorted_by_memory(s)),
    decreases s.len(),
{
    if s.len() > 0 {
        law_sorted_by_memory_descends(s.drop_last());
        lemma_insert_keeps_descending(sorted_by_memory(s.drop_last()), s.last());
    }
}

/// Ordering the process list neither loses nor adds a process.
pub proof fn law_sorted_by_memory_permutes(s: Seq<(u32, usize)>)
    ensures
        sorted_by_memory(s).to_multiset() == s.to_multiset(),
    decreases s.len(),
{
    if s.len() > 0 {
        law_sorted_by_memory_permutes(s.drop_last());
        let t = sorted_by_memory(s.drop_last());
        lemma_memory_prefix_bounds(t, s.last().1);
        vstd::seq_lib::to_multiset_insert(t, memory_prefix(t, s.last().1), s.last());
        assert(s =~= s.drop_last().push(s.last()));
    }
}



/// The entries of `s` that use exactly `m` bytes, in order.
pub open spec fn with_memory(s: Seq<(u32, usize)>, m: usize) -> Seq<(u32, usize)>
    decreases s.len(),
{
    if s.len() == 0 {
        seq![]
    } else if s.last().1 == m {
        with_memory(s.drop_last(), m).push(s.last())
    } else {
        with_memory(s.drop_last(), m)
    }
}

proof fn lemma_with_memory_concat(a: Seq<(u32, usize)>, b: Seq<(u32, usize)>, m: usize)
    ensures
        with_memory(a + b, m) == with_memory(a, m) + with_memory(b, m),
    decreases b.len(),
{
    if b.len() == 0 {
        assert(a + b =~= a);
        assert(with_memory(a, m) + with_memory(b, m) =~= with_memory(a, m));
    } else {
        lemma_with_memory_concat(a, b.drop_last(), m);
        assert((a + b).drop_last() =~= a + b.drop_last());
        assert((a + b).last() == b.last());
        if b.last().1 == m {
            assert(with_memory(a, m) + with_memory(b, m) =~= (with_memory(a, m) + with_memory(
                b.drop_last(),
                m,
            )).push(b.last()));
        }
    }
}

proof fn lemma_with_memory_none(s: Seq<(u32, usize)>, m: usize)
    requires
        forall|i: int| 0 <= i < s.len() ==> (#[trigger] s[i]).1 != m,
    ensures
        with_memory(s, m) == Seq::<(u32, usize)>::empty(),
    decreases s.len(),
{
    if s.len() > 0 {
        assert(s.last().1 != m);
        assert forall|i: int| 0 <= i < s.drop_last().len() implies (
        #[trigger] s.drop_last()[i]).1 != m by {
            assert(s.drop_last()[i] == s[i]);
        }
        lemma_with_memory_none(s.drop_last(), m);
    }
}

proof fn lemma_insert_keeps_ties(t: Seq<(u32, usize)>, x: (u32, usize), m: usize)
    requires
        memory_descending(t),
    ensures
        with_memory(insert_by_memory(t, x), m) == with_memory(t.push(x), m),
{
    let k = memory_prefix(t, x.1);
    lemma_memory_prefix_bounds(t, x.1);
    let a = t.subrange(0, k);
    let b = t.subrange(k, t.len() as int);
    assert(t =~= a + b);
    assert(insert_by_memory(t, x) =~= a.push(x) + b);
    lemma_with_memory_concat(a.push(x), b, m);
    lemma_with_memory_concat(a, b, m);
    assert(a.push(x).drop_last() =~= a);
    if x.1 == m {
        assert forall|i: int| 0 <= i < b.len() implies (#[trigger] b[i]).1 != m by {
            assert(b[i] == t[k + i]);
            assert(t[k].1 < x.1);
        }
        lemma_with_memory_none(b, m);
        assert(with_memory(a.push(x), m) + with_memory(b, m) =~= with_memory(a.push(x), m));
        assert(with_memory(a, m) + with_memory(b, m) =~= with_memory(a, m));
    } else {
        assert(with_memory(a.push(x), m) == with_memory(a, m));
    }
    assert(t.push(x).drop_last() =~= t);
}

/// The ordering is stable: processes with the same memory keep the order in
/// which the list gives them.
pub proof fn law_sorted_by_memory_is_stable(s: Seq<(u32, usize)>, m: usize)
    ensures
        with_memory(sorted_by_memory(s), m) == with_memory(s, m),
    decreases s.len(),
{
    if s.len() > 0 {
        law_sorted_by_memory_is_stable(s.drop_last(), m);
        law_sorted_by_memory_descends(s.drop_last());
        let t = sorted_by_memory(s.drop_last());
        lemma_insert_keeps_ties(t, s.last(), m);
        assert(t.push(s.last()).drop_last() =~= t);
        assert(s.drop_last().push(s.last()) =~= s);
        assert(with_memory(t.push(s.last()), m) == with_memory(s, m)) by {
            if s.last().1 == m {
                assert(with_memory(t.push(s.last()), m) == with_memory(t, m).push(s.last()));
            }
        }
    }
}

// ---------------------------------------------------------------------
// No process found
// ---------------------------------------------------------------------

/// Why no key can be scanned.
pub enum ScanError {
    /// No WeChat process runs.
    NoWeChatProcess,
}

impl ScanError {
    /// The message that the scan fails with.
    pub fn message(&self) -> (r: String)
        ensures
            r@ == "找不到 Weixin.exe 进程，请确认微信正在运行"@,
    {
        String::from_str("找不到 Weixin.exe 进程，请确认微信正在运行")
    }
}

/// The scan needs at least one WeChat process.
pub fn require_processes(pids: &Vec<(u32, usize)>) -> (r: Result<(), ScanError>)
    ensures
        r is Ok <==> pids@.len() > 0,
{
    if pids.len() == 0 {
        Err(ScanError::NoWeChatProcess)
    } else {
        Ok(())
    }
}

} // verus!
