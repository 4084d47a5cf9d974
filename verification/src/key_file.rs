//! The JSON key file of a `FileKeyStore`: an object whose member names are
//! decimal device ids and whose values are prime tuples.
use crate::chars::{codepoints, cps_of};
use crate::ot_frame::FileKeyStore;
use crate::text::push_str;
use std::collections::HashMap;
use vstd::prelude::*;

verus! {

/// The members of a JSON object of prime tuples, as `serde_json` reads it
/// into a `HashMap<String, Vec<u64>>` (a repeated name keeps its last
/// value), or the text of its error. Its value on given inputs is left
/// unstated.
pub uninterp spec fn json_key_map(content: Seq<char>) -> Result<Map<Seq<char>, Seq<u64>>, Seq<char>>;

/// The members listed in `entries`, names first.
pub open spec fn entries_view(entries: Seq<(String, Vec<u64>)>) -> Seq<(Seq<char>, Seq<u64>)> {
    Seq::new(entries.len(), |i: int| (entries[i].0@, entries[i].1@))
}

/// `entries` lists each member of `m` exactly once, in some order.
pub open spec fn enumerates(entries: Seq<(Seq<char>, Seq<u64>)>, m: Map<Seq<char>, Seq<u64>>) -> bool {
    &&& forall|i: int|
        0 <= i < entries.len() ==> m.contains_key(#[trigger] entries[i].0) && m[entries[i].0]
            == entries[i].1
    &&& forall|i: int, j: int|
        0 <= i < j < entries.len() ==> #[trigger] entries[i].0 != #[trigger] entries[j].0
    &&& forall|k: Seq<char>| #[trigger] m.contains_key(k) ==> exists|i: int| 0 <= i < entries.len() && entries[i].0 == k
}

/// Calls `serde_json::from_str::<HashMap<String, Vec<u64>>>` and lists the
/// map's members. Claimed: on success the members are those of
/// `json_key_map(content)`, each once (their order is the map's iteration
/// order, which is left unstated); on failure the error's text is the one
/// `json_key_map` gives.
#[verifier::external_body]
pub(crate) fn parse_key_file_json(content: &str) -> (r: Result<Vec<(String, Vec<u64>)>, String>)
    ensures
        match r {
            Ok(entries) => json_key_map(content@) matches Ok(m) && enumerates(
                entries_view(entries@),
                m,
            ),
            Err(e) => json_key_map(content@) == Err::<Map<Seq<char>, Seq<u64>>, Seq<char>>(e@),
        },
{
    match serde_json::from_str::<HashMap<String, Vec<u64>>>(content) {
        Ok(m) => Ok(m.into_iter().collect()),
        Err(e) => Err(e.to_string()),
    }
}

/// Value of a string of decimal digits.
pub open spec fn decimal_value(s: Seq<u32>) -> nat
    decreases s.len(),
{
    if s.len() == 0 {
        0
    } else {
        decimal_value(s.drop_last()) * 10 + (s.last() - 48) as nat
    }
}

/// Every code point is an ASCII digit.
pub open spec fn all_digits(s: Seq<u32>) -> bool {
    forall|i: int| 0 <= i < s.len() ==> 48 <= #[trigger] s[i] <= 57
}

/// The code points after an optional leading `+`.
pub open spec fn digits_part(c: Seq<u32>) -> Seq<u32> {
    if c.len() > 0 && c[0] == 43 {
        c.subrange(1, c.len() as int)
    } else {
        c
    }
}

/// `u64::from_str`: an optional `+`, then at least one decimal digit, with
/// a value that fits.
pub open spec fn parse_u64_spec(s: Seq<char>) -> Option<u64> {
    let d = digits_part(cps_of(s));
    if d.len() > 0 && all_digits(d) && decimal_value(d) < 0x1_0000_0000_0000_0000 {
        Some(decimal_value(d) as u64)
    } else {
        None
    }
}

proof fn lemma_decimal_grows(s: Seq<u32>, c: u32)
    requires
        48 <= c <= 57,
    ensures
        decimal_value(s.push(c)) == decimal_value(s) * 10 + (c - 48),
        decimal_value(s.push(c)) >= decimal_value(s),
{
    assert(s.push(c).drop_last() =~= s);
}

/// Parses a device id as `u64::from_str` does.
pub fn parse_device_id(s: &str) -> (r: Option<u64>)
    ensures
        r == parse_u64_spec(s@),
{
    let c = codepoints(s);
    let n = c.len();
    let start: usize = if n > 0 && c[0] == 43 {
        1
    } else {
        0
    };
    let ghost d = c@.subrange(start as int, n as int);
    assert(d =~= digits_part(c@));
    if start >= n {
        assert(d.len() == 0);
        return None;
    }
    let mut acc: u64 = 0;
    let mut overflow = false;
    let mut i: usize = start;
    while i < n
        invariant
            start <= i <= n == c@.len(),
            d == c@.subrange(start as int, n as int),
            d == digits_part(c@),
            c@ == cps_of(s@),
            all_digits(c@.subrange(start as int, i as int)),
            !overflow ==> acc == decimal_value(c@.subrange(start as int, i as int)),
            overflow ==> decimal_value(c@.subrange(start as int, i as int)) >= 0x1_0000_0000_0000_0000,
        decreases n - i,
    {
        let ch = c[i];
        if ch < 48 || ch > 57 {
            proof {
                assert(d[i - start] == ch);
                assert(!all_digits(d));
            }
            return None;
        }
        proof {
            assert(c@.subrange(start as int, i + 1) =~= c@.subrange(start as int, i as int).push(ch));
            lemma_decimal_grows(c@.subrange(start as int, i as int), ch);
        }
        if !overflow {
            match acc.checked_mul(10) {
                None => {
                    overflow = true;
                },
                Some(m) => match m.checked_add((ch - 48) as u64) {
                    None => {
                        overflow = true;
                    },
                    Some(v) => {
                        acc = v;
                    },
                },
            }
        }
        i = i + 1;
    }
    if overflow {
        assert(c@.subrange(start as int, n as int) == d);
        None
    } else {
        Some(acc)
    }
}

pub open spec fn msg_bad_device_id(name: Seq<char>) -> Seq<char> {
    "key store: device id '"@ + name + "' is not a u64"@
}

/// The keys of the listed members from `i` on added to `acc`, or the error
/// of the first member whose name is not a device id.
pub open spec fn store_from(
    entries: Seq<(Seq<char>, Seq<u64>)>,
    i: nat,
    acc: Map<u64, Seq<u64>>,
) -> Result<Map<u64, Seq<u64>>, Seq<char>>
    decreases entries.len() - i,
{
    if i >= entries.len() {
        Ok(acc)
    } else {
        match parse_u64_spec(entries[i as int].0) {
            None => Err(msg_bad_device_id(entries[i as int].0)),
            Some(id) => store_from(entries, i + 1, acc.insert(id, entries[i as int].1)),
        }
    }
}

pub open spec fn msg_json(path: Seq<char>, e: Seq<char>) -> Seq<char> {
    "key store JSON parse '"@ + path + "': "@ + e
}

pub open spec fn store_result(r: Result<FileKeyStore, String>) -> Result<Map<u64, Seq<u64>>, Seq<char>> {
    match r {
        Ok(s) => Ok(s.keys()),
        Err(e) => Err(e@),
    }
}

impl FileKeyStore {
    /// A store from listed members: each name parsed as a device id.
    pub fn from_entries(entries: Vec<(String, Vec<u64>)>) -> (r: Result<Self, String>)
        ensures
            store_result(r) == store_from(entries_view(entries@), 0, Map::empty()),
    {
        let ghost ev = entries_view(entries@);
        let mut store = FileKeyStore::new();
        let n = entries.len();
        let mut i: usize = 0;
        while i < n
            invariant
                i <= n == entries@.len() == ev.len(),
                ev == entries_view(entries@),
                store_from(ev, i as nat, store.keys()) == store_from(ev, 0, Map::empty()),
            decreases n - i,
        {
            let name = &entries[i].0;
            match parse_device_id(name.as_str()) {
                None => {
                    let mut s = String::from_str("key store: device id '");
                    push_str(&mut s, name.as_str());
                    push_str(&mut s, "' is not a u64");
                    return Err(s);
                },
                Some(id) => {
                    let key = crate::primes::copy_primes(entries[i].1.as_slice());
                    store.insert(id, key);
                },
            }
            i = i + 1;
        }
        Ok(store)
    }

    /// A store from the text of a JSON key file read from `path`.
    pub fn from_json(path: &str, content: &str) -> (r: Result<Self, String>)
        ensures
            match json_key_map(content@) {
                Err(e) => store_result(r) == Err::<Map<u64, Seq<u64>>, Seq<char>>(
                    msg_json(path@, e),
                ),
                Ok(m) => exists|entries: Seq<(Seq<char>, Seq<u64>)>|
                    #[trigger] enumerates(entries, m) && store_result(r) == store_from(
                        entries,
                        0,
                        Map::empty(),
                    ),
            },
    {
        match parse_key_file_json(content) {
            Err(e) => {
                let mut s = String::from_str("key store JSON parse '");
                push_str(&mut s, path);
                push_str(&mut s, "': ");
                push_str(&mut s, e.as_str());
                Err(s)
            },
            Ok(entries) => {
                let ghost ev = entries_view(entries@);
                let r = FileKeyStore::from_entries(entries);
                assert(enumerates(ev, json_key_map(content@)->Ok_0));
                r
            },
        }
    }
}

} // verus!
