//! Words of a wordlist text.
use vstd::prelude::*;

use std::collections::HashMap;

use crate::text::{chars_of, is_space, is_space_char, piece};

verus! {

/// The maximal runs of non-whitespace characters of `s`, in order.
pub open spec fn words(s: Seq<char>) -> Seq<Seq<char>>
    decreases s.len(),
{
    if s.len() == 0 {
        Seq::empty()
    } else {
        let w = words(s.drop_last());
        if is_space(s.last()) {
            w
        } else if s.len() >= 2 && !is_space(s[s.len() - 2]) {
            w.update(w.len() - 1, w.last().push(s.last()))
        } else {
            w.push(seq![s.last()])
        }
    }
}

/// The text of each string.
pub open spec fn strings_view(v: Seq<String>) -> Seq<Seq<char>> {
    v.map_values(|w: String| w@)
}

/// The whitespace-separated words of `text`, in order.
pub fn split_words(text: &str) -> (r: Vec<String>)
    ensures
        strings_view(r@) == words(text@),
{
    let cs = chars_of(text);
    let mut out: Vec<String> = Vec::new();
    let mut start: usize = 0;
    let mut in_word = false;
    let mut i: usize = 0;
    while i < cs.len()
        invariant
            cs@ == text@,
            0 <= i <= cs@.len(),
            start <= i,
            in_word <==> (i > 0 && !is_space(cs@[i - 1])),
            in_word ==> words(cs@.take(i as int)) == strings_view(out@).push(
                cs@.subrange(start as int, i as int),
            ),
            in_word ==> start < i,
            !in_word ==> words(cs@.take(i as int)) == strings_view(out@),
        decreases cs.len() - i,
    {
        let ghost pre = cs@.take(i as int);
        let ghost cur = cs@.take(i + 1);
        assert(cur.drop_last() =~= pre);
        assert(cur.last() == cs@[i as int]);
        let c = cs[i];
        if is_space_char(c) {
            if in_word {
                let ghost before = out@;
                let w = piece(text, start, i);
                out.push(w);
                assert(strings_view(out@) =~= strings_view(before).push(
                    cs@.subrange(start as int, i as int),
                ));
            }
            in_word = false;
        } else {
            if in_word {
                assert(cur[i - 1] == cs@[i - 1]);
                assert(cs@.subrange(start as int, i + 1) =~= cs@.subrange(start as int, i as int).push(c));
                let ghost sv = strings_view(out@);
                assert(sv.push(cs@.subrange(start as int, i as int)).update(
                    sv.len() as int,
                    cs@.subrange(start as int, i + 1),
                ) =~= sv.push(cs@.subrange(start as int, i + 1)));
            } else {
                if i > 0 {
                    assert(cur[i - 1] == cs@[i - 1]);
                }
                start = i;
                assert(cs@.subrange(start as int, i + 1) =~= seq![c]);
            }
            in_word = true;
        }
        i = i + 1;
    }
    assert(cs@.take(i as int) =~= cs@);
    if in_word {
        let ghost before = out@;
        let w = piece(text, start, i);
        out.push(w);
        assert(strings_view(out@) =~= strings_view(before).push(
            cs@.subrange(start as int, i as int),
        ));
    }
    out
}

/// The words of `ws` with repeats left out, each at its first place.
pub open spec fn distinct_words(ws: Seq<Seq<char>>) -> Seq<Seq<char>>
    decreases ws.len(),
{
    if ws.len() == 0 {
        Seq::empty()
    } else {
        let d = distinct_words(ws.drop_last());
        if d.contains(ws.last()) {
            d
        } else {
            d.push(ws.last())
        }
    }
}

/// The hash that std's `DefaultHasher` gives a string.
pub uninterp spec fn hash_of(s: Seq<char>) -> u64;

/// Relies on `BuildHasher::hash_one` with `BuildHasherDefault<DefaultHasher>`:
/// every `DefaultHasher` made by `new`/`default` hashes alike, so the result
/// depends on the characters alone.
#[verifier::external_body]
fn word_hash(s: &str) -> (r: u64)
    ensures
        r == hash_of(s@),
{
    std::hash::BuildHasher::hash_one(
        &std::hash::BuildHasherDefault::<std::collections::hash_map::DefaultHasher>::default(),
        s,
    )
}

/// Every kept word is listed under its hash, and every listed index is a
/// kept word with that hash.
pub open spec fn buckets_index(buckets: Map<u64, Vec<usize>>, kept: Seq<Seq<char>>) -> bool {
    &&& forall|h: u64, j: int|
        #![trigger buckets[h]@[j]]
        buckets.contains_key(h) && 0 <= j < buckets[h]@.len() ==> buckets[h]@[j] < kept.len()
            && hash_of(kept[buckets[h]@[j] as int]) == h
    &&& forall|k: int|
        0 <= k < kept.len() ==> buckets.contains_key(hash_of(#[trigger] kept[k]))
            && buckets[hash_of(kept[k])]@.contains(k as usize)
}

/// Whether one of the kept words listed in `bucket` is `w`.
fn bucket_holds(bucket: &Vec<usize>, kept: &Vec<String>, w: &String) -> (r: bool)
    requires
        forall|j: int| 0 <= j < bucket@.len() ==> bucket@[j] < kept@.len(),
    ensures
        r == exists|j: int| 0 <= j < bucket@.len() && kept@[#[trigger] bucket@[j] as int]@ == w@,
{
    let mut j: usize = 0;
    while j < bucket.len()
        invariant
            0 <= j <= bucket@.len(),
            forall|t: int| 0 <= t < bucket@.len() ==> bucket@[t] < kept@.len(),
            forall|t: int| 0 <= t < j ==> kept@[#[trigger] bucket@[t] as int]@ != w@,
        decreases bucket.len() - j,
    {
        if kept[bucket[j]] == *w {
            return true;
        }
        j = j + 1;
    }
    false
}

/// The words with repeats left out, each kept at its first place.
pub fn dedup_words(words: Vec<String>) -> (r: Vec<String>)
    ensures
        strings_view(r@) == distinct_words(strings_view(words@)),
{
    broadcast use vstd::std_specs::hash::group_hash_axioms;

    let ghost ws = strings_view(words@);
    let mut kept: Vec<String> = Vec::new();
    let mut buckets: HashMap<u64, Vec<usize>> = HashMap::new();
    let mut i: usize = 0;
    while i < words.len()
        invariant
            ws == strings_view(words@),
            0 <= i <= words@.len(),
            strings_view(kept@) == distinct_words(ws.take(i as int)),
            buckets_index(buckets@, strings_view(kept@)),
        decreases words.len() - i,
    {
        let ghost kv = strings_view(kept@);
        assert(ws.take(i + 1).drop_last() =~= ws.take(i as int));
        assert(ws.take(i + 1).last() == words@[i as int]@);
        let w = words[i].clone();
        let h = word_hash(w.as_str());
        let ghost before = buckets@;
        let bucket = match buckets.remove(&h) {
            Some(b) => b,
            None => Vec::new(),
        };
        assert(buckets@ == before.remove(h));
        assert(before.contains_key(h) ==> bucket == before[h]);
        assert(!before.contains_key(h) ==> bucket@.len() == 0);
        assert forall|j: int| 0 <= j < bucket@.len() implies bucket@[j] < kept@.len()
            && hash_of(kv[bucket@[j] as int]) == h by {
            assert(before[h]@[j] == bucket@[j]);
        }
        let found = bucket_holds(&bucket, &kept, &w);
        let kept_len: usize = kept.len();
        assert(found == kv.contains(w@)) by {
            if kv.contains(w@) {
                let k = choose|k: int| 0 <= k < kv.len() && kv[k] == w@;
                assert(hash_of(kv[k]) == h);
                assert(before[h]@.contains(k as usize));
                assert(bucket@.contains(k as usize));
                let t = choose|t: int| 0 <= t < bucket@.len() && bucket@[t] == k as usize;
                assert(kept@[k]@ == kv[k]);
                assert(k < kept_len);
                assert(bucket@[t] as int == k);
                assert(kept@[bucket@[t] as int]@ == w@);
            }
            if found {
                let t = choose|t: int|
                    0 <= t < bucket@.len() && kept@[#[trigger] bucket@[t] as int]@ == w@;
                assert(kv[bucket@[t] as int] == w@);
            }
        }
        if found {
            buckets.insert(h, bucket);
            assert(buckets@ =~= before);
        } else {
            let n: usize = kept.len();
            let mut bucket = bucket;
            let ghost ob = bucket@;
            bucket.push(n);
            kept.push(w);
            buckets.insert(h, bucket);
            let ghost nk = strings_view(kept@);
            assert(nk =~= kv.push(words@[i as int]@));
            assert(buckets@ == before.insert(h, bucket));
            assert forall|g: u64, j: int|
                #![trigger buckets@[g]@[j]]
                buckets@.contains_key(g) && 0 <= j < buckets@[g]@.len() implies buckets@[g]@[j]
                < nk.len() && hash_of(nk[buckets@[g]@[j] as int]) == g by {
                if g == h {
                    if j < ob.len() {
                        assert(buckets@[g]@[j] == ob[j]);
                    }
                } else {
                    assert(buckets@[g] == before[g]);
                    assert(before[g]@[j] < kv.len());
                }
            }
            assert forall|k: int| 0 <= k < nk.len() implies buckets@.contains_key(
                hash_of(#[trigger] nk[k]),
            ) && buckets@[hash_of(nk[k])]@.contains(k as usize) by {
                if k < kv.len() {
                    assert(nk[k] == kv[k]);
                    if hash_of(kv[k]) == h {
                        let t = choose|t: int| 0 <= t < before[h]@.len() && before[h]@[t] == k as usize;
                        assert(bucket@[t] == k as usize);
                    }
                } else {
                    assert(bucket@[ob.len() as int] == n);
                }
            }
        }
        i = i + 1;
    }
    assert(ws.take(i as int) =~= ws);
    kept
}

/// The words of a wordlist text: its whitespace-separated words, repeats
/// left out, in order of first appearance.
pub fn wordlist_words(text: &str) -> (r: Vec<String>)
    ensures
        strings_view(r@) == distinct_words(words(text@)),
{
    dedup_words(split_words(text))
}

} // verus!
