//! Candidate keys found in memory and their matching against the salts of
//! the encrypted databases.
use vstd::prelude::*;
use vstd::string::StringExecFns;

use crate::text::{strings_view, first_index_of, lemma_first_index_of_is, lemma_first_index_of_none};

verus! {

/// A candidate key as found in memory: (key hex, salt hex).
pub open spec fn pair_view(p: (String, String)) -> (Seq<char>, Seq<char>) {
    (p.0@, p.1@)
}

/// The views of a list of candidate keys.
pub open spec fn pairs_view(v: Seq<(String, String)>) -> Seq<(Seq<char>, Seq<char>)> {
    v.map_values(|p: (String, String)| pair_view(p))
}

/// The identity of a candidate key: its key text followed by its salt text.
pub open spec fn pair_key(p: (Seq<char>, Seq<char>)) -> Seq<char> {
    p.0 + p.1
}

/// Whether `rs` already holds a candidate with the identity of `p`.
pub open spec fn contains_key(rs: Seq<(Seq<char>, Seq<char>)>, p: (Seq<char>, Seq<char>)) -> bool {
    exists|j: int| 0 <= j < rs.len() && pair_key(#[trigger] rs[j]) == pair_key(p)
}

/// `rs` with `p` appended, unless a candidate with its identity is there already.
pub open spec fn add_if_new(rs: Seq<(Seq<char>, Seq<char>)>, p: (Seq<char>, Seq<char>)) -> Seq<
    (Seq<char>, Seq<char>),
> {
    if contains_key(rs, p) {
        rs
    } else {
        rs.push(p)
    }
}

/// No two candidates of `rs` have the same identity.
pub open spec fn keys_distinct(rs: Seq<(Seq<char>, Seq<char>)>) -> bool {
    forall|a: int, b: int|
        0 <= a < b < rs.len() ==> pair_key(#[trigger] rs[a]) != pair_key(#[trigger] rs[b])
}

/// Appends `(k, s)` to `results` unless a candidate with the same identity
/// (key text followed by salt text) is there already; tells whether it did.
pub fn push_if_new(results: &mut Vec<(String, String)>, k: String, s: String) -> (added: bool)
    ensures
        pairs_view(final(results)@) == add_if_new(pairs_view(old(results)@), (k@, s@)),
        added == !contains_key(pairs_view(old(results)@), (k@, s@)),
{
    let ghost view = pairs_view(results@);
    let key = k.clone().concat(s.as_str());
    let mut j: usize = 0;
    while j < results.len()
        invariant
            j <= results@.len(),
            view == pairs_view(results@),
            key@ == pair_key((k@, s@)),
            forall|i: int| 0 <= i < j ==> pair_key(#[trigger] view[i]) != pair_key((k@, s@)),
        decreases results@.len() - j,
    {
        let c = results[j].0.clone().concat(results[j].1.as_str());
        assert(view[j as int] == pair_view(results@[j as int]));
        if c == key {
            return false;
        }
        j = j + 1;
    }
    let ghost p = (k@, s@);
    results.push((k, s));
    proof {
        assert(!contains_key(view, p));
        assert(pairs_view(results@) =~= view.push(p));
    }
    true
}

pub proof fn lemma_add_if_new_keeps_distinct(rs: Seq<(Seq<char>, Seq<char>)>, p: (Seq<char>, Seq<char>))
    requires
        keys_distinct(rs),
    ensures
        keys_distinct(add_if_new(rs, p)),
        contains_key(add_if_new(rs, p), p),
        add_if_new(rs, p).len() >= rs.len(),
        rs.is_prefix_of(add_if_new(rs, p)),
{
    let r = add_if_new(rs, p);
    if !contains_key(rs, p) {
        assert forall|a: int, b: int| 0 <= a < b < r.len() implies pair_key(#[trigger] r[a])
            != pair_key(#[trigger] r[b]) by {
            if b == rs.len() {
                assert(r[a] == rs[a]);
            }
        }
        assert(pair_key(r[rs.len() as int]) == pair_key(p));
    }
    assert(rs.is_prefix_of(r));
}


// ---------------------------------------------------------------------
// Keys gathered over several processes
// ---------------------------------------------------------------------

/// `rs` after offering each candidate of `ks`, in order, to `add_if_new`.
pub open spec fn merged(rs: Seq<(Seq<char>, Seq<char>)>, ks: Seq<(Seq<char>, Seq<char>)>) -> Seq<
    (Seq<char>, Seq<char>),
>
    decreases ks.len(),
{
    if ks.len() == 0 {
        rs
    } else {
        add_if_new(merged(rs, ks.drop_last()), ks.last())
    }
}

/// Adds the keys found in one process to `all_keys`, which holds every key
/// found so far: a key whose identity (key text followed by salt text) is
/// there already is skipped. Returns how many keys were added.
pub fn merge_new_keys(all_keys: &mut Vec<(String, String)>, keys: Vec<(String, String)>) -> (added:
    usize)
    ensures
        pairs_view(final(all_keys)@) == merged(pairs_view(old(all_keys)@), pairs_view(keys@)),
        added == final(all_keys)@.len() - old(all_keys)@.len(),
{
    let ghost start = pairs_view(all_keys@);
    let ghost ks = pairs_view(keys@);
    let mut count: usize = 0;
    let mut i: usize = 0;
    while i < keys.len()
        invariant
            i <= keys@.len(),
            ks == pairs_view(keys@),
            pairs_view(all_keys@) == merged(start, ks.take(i as int)),
            count == all_keys@.len() - start.len(),
            all_keys@.len() <= start.len() + i,
        decreases keys@.len() - i,
    {
        let k = keys[i].0.clone();
        let s = keys[i].1.clone();
        proof {
            assert(ks.take(i + 1).drop_last() =~= ks.take(i as int));
            assert(ks.take(i + 1).last() == (k@, s@));
        }
        if push_if_new(all_keys, k, s) {
            count = count + 1;
        }
        i = i + 1;
    }
    assert(ks.take(keys@.len() as int) =~= ks);
    count
}

/// A store of keys built with `merge_new_keys` holds no key twice.
pub proof fn law_merge_adds_no_duplicate(
    rs: Seq<(Seq<char>, Seq<char>)>,
    ks: Seq<(Seq<char>, Seq<char>)>,
)
    requires
        keys_distinct(rs),
    ensures
        keys_distinct(merged(rs, ks)),
        rs.is_prefix_of(merged(rs, ks)),
        forall|j: int| 0 <= j < ks.len() ==> contains_key(merged(rs, ks), #[trigger] ks[j]),
    decreases ks.len(),
{
    if ks.len() > 0 {
        law_merge_adds_no_duplicate(rs, ks.drop_last());
        let prev = merged(rs, ks.drop_last());
        lemma_add_if_new_keeps_distinct(prev, ks.last());
        let r = merged(rs, ks);
        assert forall|j: int| 0 <= j < ks.len() implies contains_key(r, #[trigger] ks[j]) by {
            if j < ks.len() - 1 {
                assert(ks[j] == ks.drop_last()[j]);
                let w = choose|w: int| 0 <= w < prev.len() && pair_key(#[trigger] prev[w])
                    == pair_key(ks.drop_last()[j]);
                assert(r[w] == prev[w]);
            }
        }
    }
}


/// `rs` after merging the keys of each process of `kss`, one process after
/// the other.
pub open spec fn merged_each(
    rs: Seq<(Seq<char>, Seq<char>)>,
    kss: Seq<Seq<(Seq<char>, Seq<char>)>>,
) -> Seq<(Seq<char>, Seq<char>)>
    decreases kss.len(),
{
    if kss.len() == 0 {
        rs
    } else {
        merged(merged_each(rs, kss.drop_last()), kss.last())
    }
}

proof fn lemma_merged_concat(
    rs: Seq<(Seq<char>, Seq<char>)>,
    a: Seq<(Seq<char>, Seq<char>)>,
    b: Seq<(Seq<char>, Seq<char>)>,
)
    ensures
        merged(merged(rs, a), b) == merged(rs, a + b),
    decreases b.len(),
{
    if b.len() == 0 {
        assert(a + b =~= a);
    } else {
        lemma_merged_concat(rs, a, b.drop_last());
        assert((a + b).drop_last() =~= a + b.drop_last());
        assert((a + b).last() == b.last());
    }
}

/// Merging the keys process by process gives what one merge of all the keys,
/// the processes' lists joined in order, gives.
pub proof fn law_merge_per_process_is_one_merge(
    rs: Seq<(Seq<char>, Seq<char>)>,
    kss: Seq<Seq<(Seq<char>, Seq<char>)>>,
)
    ensures
        merged_each(rs, kss) == merged(rs, kss.flatten()),
    decreases kss.len(),
{
    kss.lemma_flatten_and_flatten_alt_are_equivalent();
    if kss.len() == 0 {
        assert(kss.flatten_alt() =~= Seq::<(Seq<char>, Seq<char>)>::empty());
    } else {
        law_merge_per_process_is_one_merge(rs, kss.drop_last());
        kss.drop_last().lemma_flatten_and_flatten_alt_are_equivalent();
        lemma_merged_concat(rs, kss.drop_last().flatten(), kss.last());
    }
}


/// Whatever a merge adds is one of the offered keys.
pub proof fn law_merge_adds_only_offered_keys(
    rs: Seq<(Seq<char>, Seq<char>)>,
    ks: Seq<(Seq<char>, Seq<char>)>,
)
    ensures
        rs.is_prefix_of(merged(rs, ks)),
        merged(rs, ks).len() <= rs.len() + ks.len(),
        forall|j: int|
            rs.len() <= j < merged(rs, ks).len() ==> ks.contains(#[trigger] merged(rs, ks)[j]),
    decreases ks.len(),
{
    if ks.len() > 0 {
        law_merge_adds_only_offered_keys(rs, ks.drop_last());
        let prev = merged(rs, ks.drop_last());
        let r = merged(rs, ks);
        assert(prev.is_prefix_of(r)) by {
            if !contains_key(prev, ks.last()) {
                assert(prev.is_prefix_of(prev.push(ks.last())));
            }
        }
        assert forall|j: int| rs.len() <= j < r.len() implies ks.contains(#[trigger] r[j]) by {
            if j < prev.len() {
                assert(r[j] == prev[j]);
                assert(ks.drop_last().contains(prev[j]));
                let w = choose|w: int| 0 <= w < ks.drop_last().len() && ks.drop_last()[w] == prev[j];
                assert(ks[w] == prev[j]);
            } else {
                assert(r[j] == ks.last());
                assert(ks[ks.len() - 1] == r[j]);
            }
        }
        assert(rs =~= r.subrange(0, rs.len() as int)) by {
            assert forall|x: int| 0 <= x < rs.len() implies rs[x] == r[x] by {
                assert(prev[x] == rs[x]);
                assert(r[x] == prev[x]);
            }
        }
    } else {
        assert(rs =~= merged(rs, ks).subrange(0, rs.len() as int));
    }
}

// ---------------------------------------------------------------------
// Matching keys with database salts
// ---------------------------------------------------------------------

/// A key matched with the database whose salt it carries.
pub struct KeyEntry {
    pub db_name: String,
    pub enc_key: String,
    pub salt: String,
}

/// (database name, key hex, salt hex) of an entry.
pub open spec fn entry_view(e: KeyEntry) -> (Seq<char>, Seq<char>, Seq<char>) {
    (e.db_name@, e.enc_key@, e.salt@)
}

pub open spec fn entries_view(v: Seq<KeyEntry>) -> Seq<(Seq<char>, Seq<char>, Seq<char>)> {
    v.map_values(|e: KeyEntry| entry_view(e))
}

/// The salts of a list of (salt, database name) pairs.
pub open spec fn salts_of(dbs: Seq<(Seq<char>, Seq<char>)>) -> Seq<Seq<char>> {
    dbs.map_values(|d: (Seq<char>, Seq<char>)| d.0)
}

/// The name of the first database that has salt `salt`, if any.
pub open spec fn first_db_with_salt(dbs: Seq<(Seq<char>, Seq<char>)>, salt: Seq<char>) -> Option<
    Seq<char>,
> {
    match first_index_of(salts_of(dbs), salt) {
        Some(j) => Some(dbs[j].1),
        None => None,
    }
}

/// Some entry of `es` carries salt `salt`.
pub open spec fn salt_matched(es: Seq<(Seq<char>, Seq<char>, Seq<char>)>, salt: Seq<char>) -> bool {
    exists|j: int| 0 <= j < es.len() && (#[trigger] es[j]).2 == salt
}

/// The entries after looking at the first `n` raw keys: a key is matched with
/// the first database of its salt, unless its salt was matched already.
pub open spec fn matched_entries(
    raw: Seq<(Seq<char>, Seq<char>)>,
    dbs: Seq<(Seq<char>, Seq<char>)>,
    n: int,
) -> Seq<(Seq<char>, Seq<char>, Seq<char>)>
    decreases n,
{
    if n <= 0 {
        seq![]
    } else {
        let prev = matched_entries(raw, dbs, n - 1);
        let (k, s) = raw[n - 1];
        match first_db_with_salt(dbs, s) {
            Some(name) => if salt_matched(prev, s) {
                prev
            } else {
                prev.push((name, k, s))
            },
            None => prev,
        }
    }
}

/// The name of the first database of `db_salts` (pairs of salt and database
/// name) whose salt is `salt`.
fn find_db_name(db_salts: &Vec<(String, String)>, salt: &String) -> (r: Option<String>)
    ensures
        (match r {
            Some(n) => Some(n@),
            None => None,
        }) == first_db_with_salt(pairs_view(db_salts@), salt@),
{
    let ghost dbs = pairs_view(db_salts@);
    let ghost salts = salts_of(dbs);
    let mut j: usize = 0;
    while j < db_salts.len()
        invariant
            j <= db_salts@.len(),
            dbs == pairs_view(db_salts@),
            salts == salts_of(dbs),
            forall|k: int| 0 <= k < j ==> salts[k] != salt@,
        decreases db_salts@.len() - j,
    {
        if db_salts[j].0 == *salt {
            proof {
                lemma_first_index_of_is(salts, salt@, j as int);
            }
            return Some(db_salts[j].1.clone());
        }
        j = j + 1;
    }
    proof {
        lemma_first_index_of_none(salts, salt@);
    }
    None
}

/// Whether an entry of `entries` carries salt `salt`.
fn has_salt(entries: &Vec<KeyEntry>, salt: &String) -> (r: bool)
    ensures
        r == salt_matched(entries_view(entries@), salt@),
{
    let ghost es = entries_view(entries@);
    let mut j: usize = 0;
    while j < entries.len()
        invariant
            j <= entries@.len(),
            es == entries_view(entries@),
            forall|k: int| 0 <= k < j ==> (#[trigger] es[k]).2 != salt@,
        decreases entries@.len() - j,
    {
        if entries[j].salt == *salt {
            assert(es[j as int].2 == salt@);
            return true;
        }
        j = j + 1;
    }
    false
}

/// Matches the raw keys (key hex, salt hex) with the databases (salt hex,
/// database name): a key whose salt is some database's, and not matched yet,
/// becomes an entry for the first database with that salt.
pub fn match_keys(raw_keys: &Vec<(String, String)>, db_salts: &Vec<(String, String)>) -> (r: Vec<
    KeyEntry,
>)
    ensures
        entries_view(r@) == matched_entries(
            pairs_view(raw_keys@),
            pairs_view(db_salts@),
            raw_keys@.len() as int,
        ),
        forall|e: int|
            0 <= e < r@.len() ==> entry_from_first(
                pairs_view(raw_keys@),
                pairs_view(db_salts@),
                raw_keys@.len() as int,
                entry_view(#[trigger] r@[e]),
            ),
        forall|a: int, b: int| 0 <= a < b < r@.len() ==> (#[trigger] r@[a]).salt@ != (#[trigger] r@[b]).salt@,
{
    let ghost raw = pairs_view(raw_keys@);
    let ghost dbs = pairs_view(db_salts@);
    let mut entries: Vec<KeyEntry> = Vec::new();
    let mut i: usize = 0;
    while i < raw_keys.len()
        invariant
            i <= raw_keys@.len(),
            raw == pairs_view(raw_keys@),
            dbs == pairs_view(db_salts@),
            entries_view(entries@) == matched_entries(raw, dbs, i as int),
        decreases raw_keys@.len() - i,
    {
        let ghost prev = entries_view(entries@);
        assert(raw[i as int] == pair_view(raw_keys@[i as int]));
        match find_db_name(db_salts, &raw_keys[i].1) {
            Some(name) => {
                if !has_salt(&entries, &raw_keys[i].1) {
                    let e = KeyEntry {
                        db_name: name,
                        enc_key: raw_keys[i].0.clone(),
                        salt: raw_keys[i].1.clone(),
                    };
                    entries.push(e);
                    assert(entries_view(entries@) =~= prev.push(entry_view(e)));
                }
            },
            None => {},
        }
        i = i + 1;
    }
    proof {
        let n = raw_keys@.len() as int;
        law_entry_is_first_key_and_first_database(raw, dbs, n);
        law_each_salt_matched_once(raw, dbs, n);
        let es = entries_view(entries@);
        assert forall|e: int| 0 <= e < entries@.len() implies entry_from_first(
            raw,
            dbs,
            n,
            entry_view(#[trigger] entries@[e]),
        ) by {
            assert(es[e] == entry_view(entries@[e]));
        }
        assert forall|a: int, b: int| 0 <= a < b < entries@.len() implies (
        #[trigger] entries@[a]).salt@ != (#[trigger] entries@[b]).salt@ by {
            assert(es[a] == entry_view(entries@[a]) && es[b] == entry_view(entries@[b]));
        }
    }
    entries
}

/// No two entries carry the same salt: each salt is matched at most once.
pub proof fn law_each_salt_matched_once(
    raw: Seq<(Seq<char>, Seq<char>)>,
    dbs: Seq<(Seq<char>, Seq<char>)>,
    n: int,
)
    ensures
        forall|a: int, b: int|
            0 <= a < b < matched_entries(raw, dbs, n).len() ==> (#[trigger] matched_entries(
                raw,
                dbs,
                n,
            )[a]).2 != (#[trigger] matched_entries(raw, dbs, n)[b]).2,
    decreases n,
{
    if n > 0 {
        law_each_salt_matched_once(raw, dbs, n - 1);
        let prev = matched_entries(raw, dbs, n - 1);
        let r = matched_entries(raw, dbs, n);
        assert forall|a: int, b: int| 0 <= a < b < r.len() implies (#[trigger] r[a]).2 != (
        #[trigger] r[b]).2 by {
            if b == prev.len() {
                assert(r[a] == prev[a]);
            } else {
                assert(r[a] == prev[a] && r[b] == prev[b]);
            }
        }
    }
}

/// A salt is matched exactly when some raw key carries it and some database
/// has it; its entry names the first such database and carries the key of
/// the first raw key with that salt.
pub proof fn law_salt_matched_iff_present(
    raw: Seq<(Seq<char>, Seq<char>)>,
    dbs: Seq<(Seq<char>, Seq<char>)>,
    n: int,
    salt: Seq<char>,
)
    requires
        0 <= n <= raw.len(),
    ensures
        salt_matched(matched_entries(raw, dbs, n), salt) <==> (first_db_with_salt(dbs, salt) is Some
            && exists|i: int| 0 <= i < n && (#[trigger] raw[i]).1 == salt),
        forall|j: int|
            0 <= j < matched_entries(raw, dbs, n).len() ==> first_db_with_salt(
                dbs,
                (#[trigger] matched_entries(raw, dbs, n)[j]).2,
            ) == Some(matched_entries(raw, dbs, n)[j].0),
    decreases n,
{
    if n > 0 {
        law_salt_matched_iff_present(raw, dbs, n - 1, salt);
        let prev = matched_entries(raw, dbs, n - 1);
        let r = matched_entries(raw, dbs, n);
        let (k, s) = raw[n - 1];
        assert forall|j: int| 0 <= j < r.len() implies first_db_with_salt(
            dbs,
            (#[trigger] r[j]).2,
        ) == Some(r[j].0) by {
            if j < prev.len() {
                assert(r[j] == prev[j]);
            }
        }
        if salt_matched(r, salt) {
            let j = choose|j: int| 0 <= j < r.len() && (#[trigger] r[j]).2 == salt;
            if j < prev.len() {
                assert(r[j] == prev[j]);
                assert(salt_matched(prev, salt));
            } else {
                assert(raw[n - 1].1 == salt);
            }
        }
        if first_db_with_salt(dbs, salt) is Some && exists|i: int|
            0 <= i < n && (#[trigger] raw[i]).1 == salt {
            let i = choose|i: int| 0 <= i < n && (#[trigger] raw[i]).1 == salt;
            if i < n - 1 {
                assert(salt_matched(prev, salt));
                let j = choose|j: int| 0 <= j < prev.len() && (#[trigger] prev[j]).2 == salt;
                assert(r[j] == prev[j]);
            } else if !salt_matched(prev, salt) {
                assert(r[prev.len() as int].2 == salt);
            } else {
                let j = choose|j: int| 0 <= j < prev.len() && (#[trigger] prev[j]).2 == salt;
                assert(r[j] == prev[j]);
            }
        }
    }
}



/// An entry built from the raw key at `i` and the database at `k`: the raw
/// key is the first with the entry's salt, and the database is the first with
/// that salt.
pub open spec fn entry_from_first(
    raw: Seq<(Seq<char>, Seq<char>)>,
    dbs: Seq<(Seq<char>, Seq<char>)>,
    n: int,
    en: (Seq<char>, Seq<char>, Seq<char>),
) -> bool {
    &&& exists|i: int|
        0 <= i < n && #[trigger] raw[i] == (en.1, en.2) && forall|j: int|
            0 <= j < i ==> (#[trigger] raw[j]).1 != en.2
    &&& exists|k: int|
        0 <= k < dbs.len() && #[trigger] dbs[k] == (en.2, en.0) && forall|j: int|
            0 <= j < k ==> (#[trigger] dbs[j]).0 != en.2
}

/// Each entry carries the whole key text and the salt of the first raw key
/// with its salt, and names the first database with that salt.
pub proof fn law_entry_is_first_key_and_first_database(
    raw: Seq<(Seq<char>, Seq<char>)>,
    dbs: Seq<(Seq<char>, Seq<char>)>,
    n: int,
)
    requires
        0 <= n <= raw.len(),
    ensures
        forall|e: int|
            0 <= e < matched_entries(raw, dbs, n).len() ==> entry_from_first(
                raw,
                dbs,
                n,
                #[trigger] matched_entries(raw, dbs, n)[e],
            ),
    decreases n,
{
    if n > 0 {
        law_entry_is_first_key_and_first_database(raw, dbs, n - 1);
        let prev = matched_entries(raw, dbs, n - 1);
        let r = matched_entries(raw, dbs, n);
        let (k, s) = raw[n - 1];
        assert forall|e: int| 0 <= e < r.len() implies entry_from_first(
            raw,
            dbs,
            n,
            #[trigger] r[e],
        ) by {
            if e < prev.len() {
                assert(r[e] == prev[e]);
                assert(entry_from_first(raw, dbs, n - 1, prev[e]));
                let en = prev[e];
                let i = choose|i: int|
                    0 <= i < n - 1 && #[trigger] raw[i] == (en.1, en.2) && forall|j: int|
                        0 <= j < i ==> (#[trigger] raw[j]).1 != en.2;
                assert(0 <= i < n && raw[i] == (en.1, en.2));
            } else {
                let name = first_db_with_salt(dbs, s).unwrap();
                assert(r[e] == (name, k, s));
                law_salt_matched_iff_present(raw, dbs, n - 1, s);
                assert forall|j: int| 0 <= j < n - 1 implies (#[trigger] raw[j]).1 != s by {
                    if raw[j].1 == s {
                        assert(exists|i: int| 0 <= i < n - 1 && (#[trigger] raw[i]).1 == s);
                    }
                }
                assert(raw[n - 1] == (k, s));
                let salts = salts_of(dbs);
                crate::text::lemma_first_index_of(salts, s);
                let kk = first_index_of(salts, s).unwrap();
                assert(salts[kk] == dbs[kk].0);
                assert(dbs[kk] == (s, name));
                assert forall|j: int| 0 <= j < kk implies (#[trigger] dbs[j]).0 != s by {
                    assert(salts[j] == dbs[j].0);
                }
            }
        }
    }
}

// ---------------------------------------------------------------------
// Salts left without a key
// ---------------------------------------------------------------------

/// The salts of `dbs`, each once, in the order in which they first appear.
pub open spec fn distinct_salts(dbs: Seq<(Seq<char>, Seq<char>)>) -> Seq<Seq<char>>
    decreases dbs.len(),
{
    if dbs.len() == 0 {
        seq![]
    } else {
        let prev = distinct_salts(dbs.drop_last());
        if prev.contains(dbs.last().0) {
            prev
        } else {
            prev.push(dbs.last().0)
        }
    }
}

/// The names of the databases of `dbs` whose salt is `salt`, in order.
pub open spec fn names_with_salt(dbs: Seq<(Seq<char>, Seq<char>)>, salt: Seq<char>) -> Seq<
    Seq<char>,
>
    decreases dbs.len(),
{
    if dbs.len() == 0 {
        seq![]
    } else {
        let prev = names_with_salt(dbs.drop_last(), salt);
        if dbs.last().0 == salt {
            prev.push(dbs.last().1)
        } else {
            prev
        }
    }
}

/// For each salt of `salts` that no entry of `es` carries: the salt and the
/// names of its databases.
pub open spec fn unmatched_groups(
    salts: Seq<Seq<char>>,
    dbs: Seq<(Seq<char>, Seq<char>)>,
    es: Seq<(Seq<char>, Seq<char>, Seq<char>)>,
) -> Seq<(Seq<char>, Seq<Seq<char>>)>
    decreases salts.len(),
{
    if salts.len() == 0 {
        seq![]
    } else {
        let prev = unmatched_groups(salts.drop_last(), dbs, es);
        if salt_matched(es, salts.last()) {
            prev
        } else {
            prev.push((salts.last(), names_with_salt(dbs, salts.last())))
        }
    }
}

pub open spec fn groups_view(v: Seq<(String, Vec<String>)>) -> Seq<(Seq<char>, Seq<Seq<char>>)> {
    v.map_values(|g: (String, Vec<String>)| (g.0@, strings_view(g.1@)))
}

/// Whether `list` holds a string equal to `s`.
fn contains_string(list: &Vec<String>, s: &String) -> (r: bool)
    ensures
        r == strings_view(list@).contains(s@),
{
    let ghost view = strings_view(list@);
    let mut j: usize = 0;
    while j < list.len()
        invariant
            j <= list@.len(),
            view == strings_view(list@),
            forall|k: int| 0 <= k < j ==> view[k] != s@,
        decreases list@.len() - j,
    {
        if list[j] == *s {
            assert(view[j as int] == s@);
            return true;
        }
        j = j + 1;
    }
    false
}

/// The names of the databases (salt, name) of `db_salts` whose salt is `salt`.
fn names_for_salt(db_salts: &Vec<(String, String)>, salt: &String) -> (r: Vec<String>)
    ensures
        strings_view(r@) == names_with_salt(pairs_view(db_salts@), salt@),
{
    let ghost dbs = pairs_view(db_salts@);
    let mut names: Vec<String> = Vec::new();
    let mut i: usize = 0;
    while i < db_salts.len()
        invariant
            i <= db_salts@.len(),
            dbs == pairs_view(db_salts@),
            strings_view(names@) == names_with_salt(dbs.take(i as int), salt@),
        decreases db_salts@.len() - i,
    {
        proof {
            assert(dbs.take(i + 1).drop_last() =~= dbs.take(i as int));
            assert(dbs.take(i + 1).last() == pair_view(db_salts@[i as int]));
        }
        if db_salts[i].0 == *salt {
            let ghost before = strings_view(names@);
            let n = db_salts[i].1.clone();
            names.push(n);
            assert(strings_view(names@) =~= before.push(n@));
        }
        i = i + 1;
    }
    assert(dbs.take(db_salts@.len() as int) =~= dbs);
    names
}

/// The salts of `db_salts` (salt, database name), each once, in order of
/// first appearance.
fn salts_in_order(db_salts: &Vec<(String, String)>) -> (r: Vec<String>)
    ensures
        strings_view(r@) == distinct_salts(pairs_view(db_salts@)),
{
    let ghost dbs = pairs_view(db_salts@);
    let mut salts: Vec<String> = Vec::new();
    let mut i: usize = 0;
    while i < db_salts.len()
        invariant
            i <= db_salts@.len(),
            dbs == pairs_view(db_salts@),
            strings_view(salts@) == distinct_salts(dbs.take(i as int)),
        decreases db_salts@.len() - i,
    {
        proof {
            assert(dbs.take(i + 1).drop_last() =~= dbs.take(i as int));
            assert(dbs.take(i + 1).last() == pair_view(db_salts@[i as int]));
        }
        if !contains_string(&salts, &db_salts[i].0) {
            let ghost before = strings_view(salts@);
            let s = db_salts[i].0.clone();
            salts.push(s);
            assert(strings_view(salts@) =~= before.push(s@));
        }
        i = i + 1;
    }
    assert(dbs.take(db_salts@.len() as int) =~= dbs);
    salts
}

/// The salts of the databases that no entry carries, each with the names of
/// its databases; the salts come in order of first appearance in `db_salts`.
pub fn unmatched_salts(db_salts: &Vec<(String, String)>, entries: &Vec<KeyEntry>) -> (r: Vec<
    (String, Vec<String>),
>)
    ensures
        groups_view(r@) == unmatched_groups(
            distinct_salts(pairs_view(db_salts@)),
            pairs_view(db_salts@),
            entries_view(entries@),
        ),
{
    let salts = salts_in_order(db_salts);
    let ghost sv = strings_view(salts@);
    let ghost dbs = pairs_view(db_salts@);
    let ghost es = entries_view(entries@);
    let mut groups: Vec<(String, Vec<String>)> = Vec::new();
    let mut i: usize = 0;
    while i < salts.len()
        invariant
            i <= salts@.len(),
            sv == strings_view(salts@),
            dbs == pairs_view(db_salts@),
            es == entries_view(entries@),
            groups_view(groups@) == unmatched_groups(sv.take(i as int), dbs, es),
        decreases salts@.len() - i,
    {
        proof {
            assert(sv.take(i + 1).drop_last() =~= sv.take(i as int));
            assert(sv.take(i + 1).last() == salts@[i as int]@);
        }
        if !has_salt(entries, &salts[i]) {
            let names = names_for_salt(db_salts, &salts[i]);
            let ghost before = groups_view(groups@);
            let g = (salts[i].clone(), names);
            groups.push(g);
            assert(groups_view(groups@) =~= before.push((g.0@, strings_view(g.1@))));
        }
        i = i + 1;
    }
    assert(sv.take(salts@.len() as int) =~= sv);
    groups
}


proof fn lemma_distinct_salts_contains(dbs: Seq<(Seq<char>, Seq<char>)>, salt: Seq<char>)
    ensures
        distinct_salts(dbs).contains(salt) <==> salts_of(dbs).contains(salt),
    decreases dbs.len(),
{
    if dbs.len() > 0 {
        lemma_distinct_salts_contains(dbs.drop_last(), salt);
        let prev = distinct_salts(dbs.drop_last());
        assert(salts_of(dbs) =~= salts_of(dbs.drop_last()).push(dbs.last().0));
        if salts_of(dbs).contains(salt) {
            let j = choose|j: int| 0 <= j < salts_of(dbs).len() && salts_of(dbs)[j] == salt;
            if j < dbs.len() - 1 {
                assert(salts_of(dbs.drop_last())[j] == salt);
                assert(prev.contains(salt));
                let w = choose|w: int| 0 <= w < prev.len() && prev[w] == salt;
                assert(distinct_salts(dbs)[w] == salt);
            } else if !prev.contains(dbs.last().0) {
                assert(distinct_salts(dbs)[prev.len() as int] == salt);
            }
        }
        if distinct_salts(dbs).contains(salt) {
            let j = choose|j: int| 0 <= j < distinct_salts(dbs).len() && distinct_salts(dbs)[j]
                == salt;
            if j < prev.len() {
                assert(prev[j] == salt);
                let k = choose|k: int| 0 <= k < salts_of(dbs.drop_last()).len() && salts_of(
                    dbs.drop_last(),
                )[k] == salt;
                assert(salts_of(dbs)[k] == salt);
            } else {
                assert(salts_of(dbs)[dbs.len() - 1] == salt);
            }
        }
    }
}

proof fn lemma_unmatched_groups_contains(
    salts: Seq<Seq<char>>,
    dbs: Seq<(Seq<char>, Seq<char>)>,
    es: Seq<(Seq<char>, Seq<char>, Seq<char>)>,
    salt: Seq<char>,
)
    ensures
        (exists|j: int|
            0 <= j < unmatched_groups(salts, dbs, es).len() && (#[trigger] unmatched_groups(
                salts,
                dbs,
                es,
            )[j]).0 == salt) <==> (salts.contains(salt) && !salt_matched(es, salt)),
        forall|j: int|
            0 <= j < unmatched_groups(salts, dbs, es).len() ==> (#[trigger] unmatched_groups(
                salts,
                dbs,
                es,
            )[j]).1 == names_with_salt(dbs, unmatched_groups(salts, dbs, es)[j].0),
    decreases salts.len(),
{
    if salts.len() > 0 {
        lemma_unmatched_groups_contains(salts.drop_last(), dbs, es, salt);
        let prev = unmatched_groups(salts.drop_last(), dbs, es);
        let g = unmatched_groups(salts, dbs, es);
        assert forall|j: int| 0 <= j < g.len() implies (#[trigger] g[j]).1 == names_with_salt(
            dbs,
            g[j].0,
        ) by {
            if j < prev.len() {
                assert(g[j] == prev[j]);
            }
        }
        if exists|j: int| 0 <= j < g.len() && (#[trigger] g[j]).0 == salt {
            let j = choose|j: int| 0 <= j < g.len() && (#[trigger] g[j]).0 == salt;
            if j < prev.len() {
                assert(g[j] == prev[j]);
                let k = choose|k: int| 0 <= k < salts.drop_last().len() && salts.drop_last()[k]
                    == salt;
                assert(salts[k] == salt);
            } else {
                assert(salts[salts.len() - 1] == salt);
            }
        }
        if salts.contains(salt) && !salt_matched(es, salt) {
            let k = choose|k: int| 0 <= k < salts.len() && salts[k] == salt;
            if k < salts.len() - 1 {
                assert(salts.drop_last()[k] == salt);
                let j = choose|j: int| 0 <= j < prev.len() && (#[trigger] prev[j]).0 == salt;
                assert(g[j] == prev[j]);
            } else {
                assert(g[prev.len() as int].0 == salt);
            }
        }
    }
}

/// The reported salts are exactly the databases' salts that no entry carries,
/// each listed with the names of all its databases.
pub proof fn law_unmatched_salts_exact(
    dbs: Seq<(Seq<char>, Seq<char>)>,
    es: Seq<(Seq<char>, Seq<char>, Seq<char>)>,
    salt: Seq<char>,
)
    ensures
        ({
            let g = unmatched_groups(distinct_salts(dbs), dbs, es);
            &&& (exists|j: int| 0 <= j < g.len() && (#[trigger] g[j]).0 == salt) <==> (salts_of(
                dbs,
            ).contains(salt) && !salt_matched(es, salt))
            &&& forall|j: int| 0 <= j < g.len() ==> (#[trigger] g[j]).1 == names_with_salt(
                dbs,
                g[j].0,
            )
        }),
{
    lemma_distinct_salts_contains(dbs, salt);
    lemma_unmatched_groups_contains(distinct_salts(dbs), dbs, es, salt);
}


/// The names listed for a salt are exactly those of the databases with that
/// salt, in the order of `dbs`, each as often as it occurs.
pub proof fn law_names_with_salt_exact(dbs: Seq<(Seq<char>, Seq<char>)>, salt: Seq<char>) -> (idx:
    Seq<int>)
    ensures
        idx.len() == names_with_salt(dbs, salt).len(),
        forall|j: int|
            0 <= j < idx.len() ==> 0 <= #[trigger] idx[j] < dbs.len() && dbs[idx[j]] == (
                salt,
                names_with_salt(dbs, salt)[j],
            ),
        forall|a: int, b: int| 0 <= a < b < idx.len() ==> #[trigger] idx[a] < #[trigger] idx[b],
        forall|k: int|
            0 <= k < dbs.len() && (#[trigger] dbs[k]).0 == salt ==> exists|j: int|
                0 <= j < idx.len() && #[trigger] idx[j] == k,
    decreases dbs.len(),
{
    if dbs.len() == 0 {
        Seq::empty()
    } else {
        let init = dbs.drop_last();
        let idx0 = law_names_with_salt_exact(init, salt);
        let prev = names_with_salt(init, salt);
        let last = dbs.len() - 1;
        if dbs.last().0 == salt {
            let idx = idx0.push(last);
            let ns = prev.push(dbs.last().1);
            assert forall|j: int| 0 <= j < idx.len() implies 0 <= #[trigger] idx[j] < dbs.len()
                && dbs[idx[j]] == (salt, ns[j]) by {
                if j < idx0.len() {
                    assert(init[idx0[j]] == dbs[idx0[j]]);
                }
            }
            assert forall|k: int| 0 <= k < dbs.len() && (#[trigger] dbs[k]).0 == salt implies exists|
                j: int|
                0 <= j < idx.len() && #[trigger] idx[j] == k by {
                if k < last {
                    assert(init[k] == dbs[k]);
                    let j = choose|j: int| 0 <= j < idx0.len() && #[trigger] idx0[j] == k;
                    assert(idx[j] == k);
                } else {
                    assert(idx[idx0.len() as int] == k);
                }
            }
            idx
        } else {
            assert forall|j: int| 0 <= j < idx0.len() implies 0 <= #[trigger] idx0[j] < dbs.len()
                && dbs[idx0[j]] == (salt, prev[j]) by {
                assert(init[idx0[j]] == dbs[idx0[j]]);
            }
            assert forall|k: int| 0 <= k < dbs.len() && (#[trigger] dbs[k]).0 == salt implies exists|
                j: int|
                0 <= j < idx0.len() && #[trigger] idx0[j] == k by {
                if k < last {
                    assert(init[k] == dbs[k]);
                }
            }
            idx0
        }
    }
}

/// The salts of the databases are listed each once.
pub proof fn law_distinct_salts_once(dbs: Seq<(Seq<char>, Seq<char>)>)
    ensures
        forall|a: int, b: int|
            0 <= a < b < distinct_salts(dbs).len() ==> #[trigger] distinct_salts(dbs)[a]
                != #[trigger] distinct_salts(dbs)[b],
    decreases dbs.len(),
{
    if dbs.len() > 0 {
        law_distinct_salts_once(dbs.drop_last());
        let prev = distinct_salts(dbs.drop_last());
        let r = distinct_salts(dbs);
        assert forall|a: int, b: int| 0 <= a < b < r.len() implies #[trigger] r[a] != #[trigger] r[b] by {
            if b < prev.len() {
                assert(r[a] == prev[a] && r[b] == prev[b]);
            } else {
                assert(r[a] == prev[a]);
                if r[a] == r[b] {
                    assert(prev.contains(dbs.last().0));
                }
            }
        }
    }
}

} // verus!
