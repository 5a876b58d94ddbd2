//! Search of raw memory for key literals `x'<hex>'`, as the database library
//! keeps them: the first 64 hex digits are the key, the last 32 the salt.
use vstd::prelude::*;
use vstd::slice::slice_subrange;

use crate::keys::{add_if_new, contains_key, keys_distinct, pair_key, pairs_view, push_if_new,
    lemma_add_if_new_keeps_distinct};
use crate::text::push_char;

verus! {

/// Shortest run of hex digits (in bytes) that the scan starts looking at.
pub const HEX_PATTERN_MIN: usize = 64;

/// Longest run of hex digits (in bytes) accepted after the opening quote.
pub const HEX_PATTERN_MAX: usize = 192;

/// Bytes after the opening quote in which the closing quote is looked for:
/// up to `HEX_PATTERN_MAX` digits, then the quote.
pub const QUOTE_WINDOW: usize = HEX_PATTERN_MAX + 1;

/// Size of one read of process memory.
pub const CHUNK_SIZE: usize = 2 * 1024 * 1024;

/// Shortest hex text accepted: a 32-byte key and a 16-byte salt.
pub const HEX_KEY_MIN: usize = 96;

/// Hex digits of the key (32 bytes).
pub const KEY_HEX_LEN: usize = 64;

/// Hex digits of the salt (16 bytes).
pub const SALT_HEX_LEN: usize = 32;

pub open spec fn quote() -> u8 {
    0x27u8
}

pub open spec fn letter_x() -> u8 {
    0x78u8
}

/// ASCII hex digits: `0-9`, `A-F`, `a-f`.
pub open spec fn is_hex_byte(c: u8) -> bool {
    (0x30 <= c <= 0x39) || (0x41 <= c <= 0x46) || (0x61 <= c <= 0x66)
}

/// Whether `c` is an ASCII hex digit.
pub fn is_hex_char(c: u8) -> (r: bool)
    ensures
        r == is_hex_byte(c),
{
    (0x30 <= c && c <= 0x39) || (0x41 <= c && c <= 0x46) || (0x61 <= c && c <= 0x66)
}

/// End of the window `[start, start + max_len)` cut at the end of a buffer of `len` bytes.
pub open spec fn window_end(len: int, start: int, max_len: int) -> int {
    if start + max_len < len {
        start + max_len
    } else {
        len
    }
}

/// Finds the first quote in `buf[start .. start + max_len]` (cut at the end of `buf`).
pub fn find_ending_quote(buf: &[u8], start: usize, max_len: usize) -> (r: Option<usize>)
    requires
        start + max_len <= usize::MAX,
    ensures
        match r {
            Some(q) => {
                &&& start <= q < window_end(buf@.len() as int, start as int, max_len as int)
                &&& buf@[q as int] == quote()
                &&& forall|k: int| start <= k < q ==> buf@[k] != quote()
            },
            None => forall|k: int|
                start <= k < window_end(buf@.len() as int, start as int, max_len as int)
                    ==> buf@[k] != quote(),
        },
        r matches Some(q) ==> start <= q && q < start + max_len && q < buf@.len() && buf@[q as int]
            == 0x27u8,
        r is None ==> forall|k: int|
            start <= k && k < start + max_len && k < buf@.len() ==> buf@[k] != 0x27u8,
{
    let end = if start + max_len < buf.len() {
        start + max_len
    } else {
        buf.len()
    };
    let mut i = start;
    while i < end
        invariant
            start <= i,
            end == window_end(buf@.len() as int, start as int, max_len as int),
            forall|k: int| start <= k < i ==> buf@[k] != quote(),
        decreases end - i,
    {
        if buf[i] == 0x27u8 {
            return Some(i);
        }
        i = i + 1;
    }
    None
}

/// ASCII lower case of one byte, as a character.
pub open spec fn ascii_lower(c: u8) -> char {
    if 0x41 <= c <= 0x5a {
        (c + 32) as char
    } else {
        c as char
    }
}

/// The text of `s` in ASCII lower case.
pub open spec fn lowered(s: Seq<u8>) -> Seq<char> {
    s.map_values(|c: u8| ascii_lower(c))
}

/// A lower-case hex digit.
pub open spec fn is_lower_hex_char(c: char) -> bool {
    ('0' <= c <= '9') || ('a' <= c <= 'f')
}

/// The quote at `q` closes a hex text starting at `hs`: it is the first quote
/// in the window of `QUOTE_WINDOW` bytes after `hs`, so that up to
/// `HEX_PATTERN_MAX` digits lie before it.
pub open spec fn closes_at(buf: Seq<u8>, hs: int, q: int) -> bool {
    &&& hs <= q < window_end(buf.len() as int, hs, QUOTE_WINDOW as int)
    &&& buf[q] == quote()
    &&& forall|k: int| hs <= k < q ==> buf[k] != quote()
}

/// `buf[i..=q]` is a key literal `x'<hex>'`: an even number of hex digits,
/// at least `HEX_KEY_MIN` of them, closed by the quote at `q`.
pub open spec fn key_literal_at(buf: Seq<u8>, i: int, q: int) -> bool {
    let hs = i + 2;
    &&& 0 <= i
    &&& i + 1 < buf.len()
    &&& buf[i] == letter_x()
    &&& buf[i + 1] == quote()
    &&& closes_at(buf, hs, q)
    &&& HEX_KEY_MIN <= q - hs <= HEX_PATTERN_MAX
    &&& (q - hs) % 2 == 0
    &&& forall|k: int| hs <= k < q ==> is_hex_byte(buf[k])
}

/// The candidate key that a literal opening at `i` yields: the first 64 hex
/// digits (lower case) and the last 32 hex digits (lower case).
pub open spec fn candidate_at(buf: Seq<u8>, i: int) -> Option<(Seq<char>, Seq<char>)> {
    if exists|q: int| key_literal_at(buf, i, q) {
        let q = choose|q: int| key_literal_at(buf, i, q);
        Some(
            (
                lowered(buf.subrange(i + 2, i + 2 + KEY_HEX_LEN)),
                lowered(buf.subrange(q - SALT_HEX_LEN, q)),
            ),
        )
    } else {
        None
    }
}

/// How many opening positions a scan of a buffer of `len` bytes looks at.
pub open spec fn scan_positions(len: int) -> int {
    if len >= HEX_PATTERN_MIN + 3 {
        len - (HEX_PATTERN_MIN + 3) + 1
    } else {
        0
    }
}

/// The results after looking at the first `n` opening positions of `buf`,
/// starting from `rs`: each literal's candidate is appended unless one with
/// the same identity is there already.
pub open spec fn found_keys(buf: Seq<u8>, rs: Seq<(Seq<char>, Seq<char>)>, n: int) -> Seq<
    (Seq<char>, Seq<char>),
>
    decreases n,
{
    if n <= 0 {
        rs
    } else {
        let prev = found_keys(buf, rs, n - 1);
        match candidate_at(buf, n - 1) {
            Some(p) => add_if_new(prev, p),
            None => prev,
        }
    }
}

proof fn lemma_closes_unique(buf: Seq<u8>, hs: int, q1: int, q2: int)
    requires
        closes_at(buf, hs, q1),
        closes_at(buf, hs, q2),
    ensures
        q1 == q2,
{
    if q1 < q2 {
        assert(buf[q1] != quote());
    }
    if q2 < q1 {
        assert(buf[q2] != quote());
    }
}

/// The lower-case text of `buf[from..to]`.
fn lower_hex_string(buf: &[u8], from: usize, to: usize) -> (r: String)
    requires
        from <= to <= buf@.len(),
    ensures
        r@ == lowered(buf@.subrange(from as int, to as int)),
{
    let mut r = String::new();
    let mut k = from;
    while k < to
        invariant
            from <= k <= to <= buf@.len(),
            r@ == lowered(buf@.subrange(from as int, k as int)),
        decreases to - k,
    {
        let c = buf[k];
        let lc: u8 = if 0x41 <= c && c <= 0x5a {
            c + 32
        } else {
            c
        };
        push_char(&mut r, lc as char);
        proof {
            assert(lowered(buf@.subrange(from as int, k + 1)) =~= lowered(
                buf@.subrange(from as int, k as int),
            ).push(ascii_lower(c)));
        }
        k = k + 1;
    }
    r
}

/// Whether every byte of `buf[from..to]` is a hex digit.
fn all_hex(buf: &[u8], from: usize, to: usize) -> (r: bool)
    requires
        from <= to <= buf@.len(),
    ensures
        r == forall|k: int| from <= k < to ==> is_hex_byte(buf@[k]),
{
    let mut k = from;
    while k < to
        invariant
            from <= k <= to <= buf@.len(),
            forall|i: int| from <= i < k ==> is_hex_byte(buf@[i]),
        decreases to - k,
    {
        if !is_hex_char(buf[k]) {
            return false;
        }
        k = k + 1;
    }
    true
}

/// Searches `buf` for key literals `x'<hex>'` and appends the candidate key
/// of each (first 64 and last 32 hex digits, lower case) to `results`, unless
/// a candidate with the same identity is there already.
pub fn search_pattern(buf: &[u8], results: &mut Vec<(String, String)>)
    requires
        buf@.len() <= isize::MAX,
    ensures
        pairs_view(final(results)@) == found_keys(
            buf@,
            pairs_view(old(results)@),
            scan_positions(buf@.len() as int),
        ),
{
    if buf.len() < HEX_PATTERN_MIN + 3 {
        return;
    }
    let ghost start = pairs_view(results@);
    let mut i: usize = 0;
    while i + HEX_PATTERN_MIN + 3 <= buf.len()
        invariant
            buf@.len() <= isize::MAX,
            buf@.len() >= HEX_PATTERN_MIN + 3,
            i <= scan_positions(buf@.len() as int),
            pairs_view(results@) == found_keys(buf@, start, i as int),
        decreases buf@.len() - i,
    {
        let ghost b = buf@;
        let ghost prev = pairs_view(results@);
        if buf[i] == 0x78u8 && buf[i + 1] == 0x27u8 {
            let hex_start = i + 2;
            let end_quote = find_ending_quote(buf, hex_start, QUOTE_WINDOW);
            match end_quote {
                Some(quote_pos) => {
                    let hex_len = quote_pos - hex_start;
                    if hex_len >= HEX_KEY_MIN && hex_len <= HEX_PATTERN_MAX && hex_len % 2 == 0
                        && all_hex(buf, hex_start, quote_pos) {
                        let key_hex = lower_hex_string(buf, hex_start, hex_start + KEY_HEX_LEN);
                        let salt_hex = lower_hex_string(buf, quote_pos - SALT_HEX_LEN, quote_pos);
                        proof {
                            assert(key_literal_at(b, i as int, quote_pos as int));
                            let q = choose|q: int| key_literal_at(b, i as int, q);
                            lemma_closes_unique(b, i + 2, q, quote_pos as int);
                            assert(candidate_at(b, i as int) == Some((key_hex@, salt_hex@)));
                        }
                        push_if_new(results, key_hex, salt_hex);
                    } else {
                        proof {
                            if exists|q: int| key_literal_at(b, i as int, q) {
                                let q = choose|q: int| key_literal_at(b, i as int, q);
                                lemma_closes_unique(b, i + 2, q, quote_pos as int);
                            }
                            assert(candidate_at(b, i as int) is None);
                        }
                    }
                },
                None => {
                    proof {
                        if exists|q: int| key_literal_at(b, i as int, q) {
                            let q = choose|q: int| key_literal_at(b, i as int, q);
                            assert(b[q] == quote());
                        }
                        assert(candidate_at(b, i as int) is None);
                    }
                },
            }
        } else {
            proof {
                assert(candidate_at(b, i as int) is None);
            }
        }
        proof {
            assert(found_keys(b, start, i + 1) == match candidate_at(b, i as int) {
                Some(p) => add_if_new(prev, p),
                None => prev,
            });
        }
        i = i + 1;
    }
}

/// Searches the first `min(bytes_read, buf.len())` bytes of a chunk that was
/// read from memory, when the read succeeded and returned something.
pub fn scan_chunk(
    buf: &[u8],
    read_ok: bool,
    bytes_read: usize,
    results: &mut Vec<(String, String)>,
)
    requires
        buf@.len() <= isize::MAX,
    ensures
        ({
            let n = if bytes_read < buf@.len() {
                bytes_read as int
            } else {
                buf@.len() as int
            };
            if read_ok && bytes_read > 0 {
                pairs_view(final(results)@) == found_keys(
                    buf@.take(n),
                    pairs_view(old(results)@),
                    scan_positions(n),
                )
            } else {
                final(results)@ == old(results)@
            }
        }),
{
    if read_ok && bytes_read > 0 {
        let n = if bytes_read < buf.len() {
            bytes_read
        } else {
            buf.len()
        };
        let part = slice_subrange(buf, 0, n);
        assert(part@ =~= buf@.take(n as int));
        search_pattern(part, results);
    }
}


// ---------------------------------------------------------------------
// Where the results come from
// ---------------------------------------------------------------------

/// The literal opening at `i` yields a candidate with the identity of `p`.
pub open spec fn found_at(buf: Seq<u8>, i: int, p: (Seq<char>, Seq<char>)) -> bool {
    candidate_at(buf, i) is Some && pair_key(candidate_at(buf, i).unwrap()) == pair_key(p)
}

/// A key with the identity of `p` is in the results of a search exactly when
/// it was there before, or a literal at a scanned position yields it.
pub proof fn lemma_found_keys_members(
    buf: Seq<u8>,
    rs: Seq<(Seq<char>, Seq<char>)>,
    n: int,
    p: (Seq<char>, Seq<char>),
)
    requires
        n >= 0,
    ensures
        contains_key(found_keys(buf, rs, n), p) <==> (contains_key(rs, p) || exists|i: int|
            0 <= i < n && #[trigger] found_at(buf, i, p)),
    decreases n,
{
    if n > 0 {
        lemma_found_keys_members(buf, rs, n - 1, p);
        let prev = found_keys(buf, rs, n - 1);
        let r = found_keys(buf, rs, n);
        assert(prev.is_prefix_of(r)) by {
            if let Some(c) = candidate_at(buf, n - 1) {
                if !contains_key(prev, c) {
                    assert(prev.is_prefix_of(prev.push(c)));
                }
            }
        }
        if contains_key(prev, p) {
            let j = choose|j: int| 0 <= j < prev.len() && pair_key(#[trigger] prev[j]) == pair_key(p);
            assert(r[j] == prev[j]);
        }
        if found_at(buf, n - 1, p) && !contains_key(prev, p) {
            let c = candidate_at(buf, n - 1).unwrap();
            if contains_key(prev, c) {
                let j = choose|j: int| 0 <= j < prev.len() && pair_key(#[trigger] prev[j]) == pair_key(c);
                assert(false);
            } else {
                assert(r[prev.len() as int] == c);
            }
        }
        if contains_key(r, p) && !contains_key(prev, p) {
            let j = choose|j: int| 0 <= j < r.len() && pair_key(#[trigger] r[j]) == pair_key(p);
            if j < prev.len() {
                assert(r[j] == prev[j]);
            } else {
                assert(found_at(buf, n - 1, p));
            }
        }
    }
}

/// A literal found in a piece `buf[o .. o + c]` is a literal of `buf` too,
/// with the same candidate.
pub proof fn lemma_piece_candidate(buf: Seq<u8>, o: int, c: int, i: int)
    requires
        0 <= o,
        0 <= c,
        o + c <= buf.len(),
        candidate_at(buf.subrange(o, o + c), i) is Some,
    ensures
        candidate_at(buf, o + i) == candidate_at(buf.subrange(o, o + c), i),
{
    let ch = buf.subrange(o, o + c);
    let q = choose|q: int| key_literal_at(ch, i, q);
    let hs = i + 2;
    assert forall|k: int| o + hs <= k < o + q implies buf[k] != quote() && is_hex_byte(buf[k]) by {
        assert(buf[k] == ch[k - o]);
    }
    assert(buf[o + i] == ch[i] && buf[o + i + 1] == ch[i + 1] && buf[o + q] == ch[q]);
    assert(key_literal_at(buf, o + i, o + q));
    let at = o + i;
    let q2 = choose|q2: int| key_literal_at(buf, at, q2);
    lemma_closes_unique(buf, at + 2, q2, o + q);
    assert(ch.subrange(i + 2, i + 2 + KEY_HEX_LEN) =~= buf.subrange(
        o + i + 2,
        o + i + 2 + KEY_HEX_LEN,
    ));
    assert(ch.subrange(q - SALT_HEX_LEN, q) =~= buf.subrange(o + q - SALT_HEX_LEN, o + q));
}

/// A literal of `buf` that lies whole in a piece `buf[o .. o + c]`, its
/// closing quote included, is a literal of the piece.
pub proof fn lemma_literal_in_piece(buf: Seq<u8>, o: int, c: int, i: int, q: int)
    requires
        key_literal_at(buf, i, q),
        0 <= o <= i,
        q + 1 <= o + c,
        o + c <= buf.len(),
    ensures
        key_literal_at(buf.subrange(o, o + c), i - o, q - o),
        candidate_at(buf.subrange(o, o + c), i - o) is Some,
        i - o < scan_positions(c),
{
    let ch = buf.subrange(o, o + c);
    let hs = i + 2;
    assert forall|k: int| hs - o <= k < q - o implies ch[k] != quote() && is_hex_byte(ch[k]) by {
        assert(ch[k] == buf[k + o]);
    }
    assert(ch[i - o] == buf[i] && ch[i - o + 1] == buf[i + 1] && ch[q - o] == buf[q]);
    assert(key_literal_at(ch, i - o, q - o));
}

// ---------------------------------------------------------------------
// Laws of the search
// ---------------------------------------------------------------------

/// The search only appends: what was in the results stays, in order.
pub proof fn law_search_keeps_earlier_results(
    buf: Seq<u8>,
    rs: Seq<(Seq<char>, Seq<char>)>,
    n: int,
)
    ensures
        rs.is_prefix_of(found_keys(buf, rs, n)),
    decreases n,
{
    if n > 0 {
        law_search_keeps_earlier_results(buf, rs, n - 1);
        let prev = found_keys(buf, rs, n - 1);
        if let Some(p) = candidate_at(buf, n - 1) {
            if !contains_key(prev, p) {
                assert(prev.is_prefix_of(prev.push(p)));
            }
        }
    }
}

/// Results that hold no candidate twice still hold none twice after a search.
pub proof fn law_search_adds_no_duplicate(
    buf: Seq<u8>,
    rs: Seq<(Seq<char>, Seq<char>)>,
    n: int,
)
    requires
        keys_distinct(rs),
    ensures
        keys_distinct(found_keys(buf, rs, n)),
    decreases n,
{
    if n > 0 {
        law_search_adds_no_duplicate(buf, rs, n - 1);
        if let Some(p) = candidate_at(buf, n - 1) {
            lemma_add_if_new_keeps_distinct(found_keys(buf, rs, n - 1), p);
        }
    }
}

/// The candidate of a key literal: a 64-digit key and a 32-digit salt, both
/// lower-case hex, the salt being the last 32 digits of the literal.
pub proof fn law_candidate_shape(buf: Seq<u8>, i: int)
    requires
        candidate_at(buf, i) is Some,
    ensures
        ({
            let (k, s) = candidate_at(buf, i).unwrap();
            &&& k.len() == KEY_HEX_LEN
            &&& s.len() == SALT_HEX_LEN
            &&& forall|j: int| 0 <= j < k.len() ==> is_lower_hex_char(#[trigger] k[j])
            &&& forall|j: int| 0 <= j < s.len() ==> is_lower_hex_char(#[trigger] s[j])
        }),
{
    let q = choose|q: int| key_literal_at(buf, i, q);
    let (k, s) = candidate_at(buf, i).unwrap();
    assert forall|j: int| 0 <= j < k.len() implies is_lower_hex_char(#[trigger] k[j]) by {
        assert(k[j] == ascii_lower(buf[i + 2 + j]));
        assert(is_hex_byte(buf[i + 2 + j]));
    }
    assert forall|j: int| 0 <= j < s.len() implies is_lower_hex_char(#[trigger] s[j]) by {
        assert(s[j] == ascii_lower(buf[q - SALT_HEX_LEN + j]));
        assert(is_hex_byte(buf[q - SALT_HEX_LEN + j]));
    }
}


/// A key literal is exactly `x'`, then 96 to 192 hex digits (an even number),
/// then a quote: the window of the quote search cuts none of these off.
pub proof fn law_key_literal_exactly(buf: Seq<u8>, i: int, q: int)
    ensures
        key_literal_at(buf, i, q) <==> ({
            &&& 0 <= i
            &&& q < buf.len()
            &&& buf[i] == 0x78u8
            &&& buf[i + 1] == 0x27u8
            &&& buf[q] == 0x27u8
            &&& 96 <= q - (i + 2) <= 192
            &&& (q - (i + 2)) % 2 == 0
            &&& forall|k: int| i + 2 <= k < q ==> buf[k] != 0x27u8 && is_hex_byte(buf[k])
        }),
{
}

/// The candidate of a key literal closed at `q`: its key is the first 64 hex
/// digits after `x'` and its salt the last 32 before the closing quote, each
/// digit lower-cased and in order.
pub proof fn law_candidate_digits(buf: Seq<u8>, i: int, q: int)
    requires
        key_literal_at(buf, i, q),
    ensures
        candidate_at(buf, i) is Some,
        ({
            let (k, s) = candidate_at(buf, i).unwrap();
            &&& k.len() == 64
            &&& s.len() == 32
            &&& forall|j: int| 0 <= j < 64 ==> #[trigger] k[j] == ascii_lower(buf[i + 2 + j])
            &&& forall|j: int| 0 <= j < 32 ==> #[trigger] s[j] == ascii_lower(buf[q - 32 + j])
        }),
        forall|c: u8|
            is_hex_byte(c) ==> is_lower_hex_char(#[trigger] ascii_lower(c)) && (ascii_lower(c)
                == c as char || (0x41 <= c <= 0x46 && ascii_lower(c) == (c + 32) as char)),
{
    let q2 = choose|q2: int| key_literal_at(buf, i, q2);
    lemma_closes_unique(buf, i + 2, q, q2);
}


/// The hex digits are `0-9`, `a-f` and `A-F`, and nothing else.
pub proof fn law_hex_digits(c: u8)
    ensures
        is_hex_byte(c) <==> (('0' <= c as char && c as char <= '9') || ('a' <= c as char && c as char
            <= 'f') || ('A' <= c as char && c as char <= 'F')),
{
}

/// Every key literal of a buffer opens at a position the search looks at.
pub proof fn law_every_literal_is_scanned(buf: Seq<u8>, i: int, q: int)
    requires
        key_literal_at(buf, i, q),
    ensures
        0 <= i < scan_positions(buf.len() as int),
{
}

/// Whatever a search adds comes from a key literal of the buffer at a
/// position it looked at.
pub proof fn law_search_adds_only_literals(
    buf: Seq<u8>,
    rs: Seq<(Seq<char>, Seq<char>)>,
    n: int,
)
    ensures
        forall|j: int|
            rs.len() <= j < found_keys(buf, rs, n).len() ==> exists|i: int|
                0 <= i < n && candidate_at(buf, i) == Some(#[trigger] found_keys(buf, rs, n)[j]),
    decreases n,
{
    if n > 0 {
        law_search_adds_only_literals(buf, rs, n - 1);
        law_search_keeps_earlier_results(buf, rs, n - 1);
        let prev = found_keys(buf, rs, n - 1);
        let r = found_keys(buf, rs, n);
        assert forall|j: int| rs.len() <= j < r.len() implies exists|i: int|
            0 <= i < n && candidate_at(buf, i) == Some(#[trigger] r[j]) by {
            if j < prev.len() {
                assert(r[j] == prev[j]) by {
                    if let Some(c) = candidate_at(buf, n - 1) {
                        if !contains_key(prev, c) {
                            assert(prev.push(c)[j] == prev[j]);
                        }
                    }
                }
                let i = choose|i: int| 0 <= i < n - 1 && candidate_at(buf, i) == Some(
                    #[trigger] prev[j],
                );
                assert(0 <= i < n);
            } else {
                assert(candidate_at(buf, n - 1) == Some(r[j]));
            }
        }
    }
}

/// Every key literal opening at a position the search looks at has its
/// candidate (by identity) in the results.
pub proof fn law_search_finds_every_literal(
    buf: Seq<u8>,
    rs: Seq<(Seq<char>, Seq<char>)>,
    n: int,
    i: int,
)
    requires
        0 <= i < n,
        candidate_at(buf, i) is Some,
    ensures
        contains_key(found_keys(buf, rs, n), candidate_at(buf, i).unwrap()),
    decreases n,
{
    let p = candidate_at(buf, i).unwrap();
    if i == n - 1 {
        let prev = found_keys(buf, rs, n - 1);
        if !contains_key(prev, p) {
            let r = prev.push(p);
            assert(pair_key(r[prev.len() as int]) == pair_key(p));
        }
    } else {
        law_search_finds_every_literal(buf, rs, n - 1, i);
        law_search_keeps_earlier_results(buf, found_keys(buf, rs, n - 1), 1);
        let prev = found_keys(buf, rs, n - 1);
        let j = choose|j: int| 0 <= j < prev.len() && pair_key(#[trigger] prev[j]) == pair_key(p);
        let r = found_keys(buf, rs, n);
        assert(prev.is_prefix_of(r)) by {
            if let Some(c) = candidate_at(buf, n - 1) {
                if !contains_key(prev, c) {
                    assert(prev.is_prefix_of(prev.push(c)));
                }
            }
        }
        assert(r[j] == prev[j]);
    }
}

} // verus!
