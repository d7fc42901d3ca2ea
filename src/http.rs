//! Request headers given on the command line, as name/value pairs.
use vstd::prelude::*;

use crate::filters::opt_str;
use crate::text::{
    chars_of, contains, occurs_at, occurs_at_exec, piece, split, split_bounds, trim, trim_bounds,
};

verus! {

/// What separates a header's name from its value.
pub open spec fn name_sep() -> Seq<char> {
    seq![':', ' ']
}

/// `pat` occurs at `i` and nowhere before.
pub open spec fn first_at(s: Seq<char>, pat: Seq<char>, i: int) -> bool {
    occurs_at(s, pat, i) && forall|j: int| 0 <= j < i ==> !occurs_at(s, pat, j)
}

/// A `name: value` item: the text before the first `": "`, trimmed, and
/// the text after it as it stands; an item without `": "` gives no header.
pub open spec fn header_of(item: Seq<char>) -> Option<(Seq<char>, Seq<char>)> {
    if contains(item, name_sep()) {
        let i = choose|i: int| first_at(item, name_sep(), i);
        Some((trim(item.take(i)), item.skip(i + 2)))
    } else {
        None
    }
}

/// The headers of the comma-separated items, in order.
pub open spec fn headers_of(items: Seq<Seq<char>>) -> Seq<(Seq<char>, Seq<char>)>
    decreases items.len(),
{
    if items.len() == 0 {
        Seq::empty()
    } else {
        headers_of(items.drop_last()) + match header_of(items.last()) {
            Some(h) => seq![h],
            None => Seq::empty(),
        }
    }
}

/// All headers: those of the header option, then the cookie header.
pub open spec fn request_headers(headers: Option<Seq<char>>, cookies: Option<Seq<char>>) -> Option<
    Seq<(Seq<char>, Seq<char>)>,
> {
    if headers is None && cookies is None {
        None
    } else {
        Some(
            match headers {
                Some(h) => headers_of(split(h, ',')),
                None => Seq::empty(),
            } + match cookies {
                Some(c) => seq![("Cookie"@, c)],
                None => Seq::empty(),
            },
        )
    }
}

/// The text of each name/value pair.
pub open spec fn pairs_view(v: Seq<(String, String)>) -> Seq<(Seq<char>, Seq<char>)> {
    v.map_values(|p: (String, String)| (p.0@, p.1@))
}

proof fn lemma_first_at_unique(s: Seq<char>, pat: Seq<char>, i: int, j: int)
    requires
        first_at(s, pat, i),
        first_at(s, pat, j),
    ensures
        i == j,
{
}

/// The header of the item `cs[lo..hi]`, whose text is also `s[lo..hi]`.
fn header_at(s: &str, cs: &Vec<char>, lo: usize, hi: usize) -> (r: Option<(String, String)>)
    requires
        cs@ == s@,
        lo <= hi <= cs@.len(),
    ensures
        match r {
            Some(p) => header_of(cs@.subrange(lo as int, hi as int)) == Some((p.0@, p.1@)),
            None => header_of(cs@.subrange(lo as int, hi as int)) is None,
        },
{
    let ghost item = cs@.subrange(lo as int, hi as int);
    let part = piece(s, lo, hi);
    let ics = chars_of(part.as_str());
    let sep = vec![':', ' '];
    assert(sep@ =~= name_sep());
    let mut i: usize = 0;
    while i < ics.len()
        invariant
            lo <= hi <= cs@.len(),
            item == cs@.subrange(lo as int, hi as int),
            ics@ == item,
            part@ == item,
            sep@ == name_sep(),
            0 <= i <= ics@.len(),
            forall|j: int| 0 <= j < i ==> !occurs_at(item, name_sep(), j),
        decreases ics.len() - i,
    {
        if occurs_at_exec(&ics, &sep, i) {
            assert(first_at(item, name_sep(), i as int));
            assert(contains(item, name_sep()));
            let ghost k = choose|k: int| first_at(item, name_sep(), k);
            proof {
                lemma_first_at_unique(item, name_sep(), i as int, k);
            }
            let (a, b) = trim_bounds(&ics, 0, i);
            assert(ics@.subrange(0, i as int) =~= item.take(i as int));
            assert(ics@.subrange(i + 2, ics@.len() as int) =~= item.skip(i + 2));
            let name = piece(part.as_str(), a, b);
            let value = piece(part.as_str(), i + 2, ics.len());
            return Some((name, value));
        }
        i = i + 1;
    }
    assert forall|j: int| !occurs_at(item, name_sep(), j) by {
        if 0 <= j < i {
        }
    }
    None
}

/// Name/value pairs of the extra request headers, as `name: value` items
/// separated by commas, followed by a `Cookie` header where cookies are
/// given; `None` where neither option is.
pub fn parse_headers(headers: Option<String>, cookies: Option<String>) -> (r: Option<
    Vec<(String, String)>,
>)
    ensures
        match r {
            Some(v) => request_headers(opt_str(headers), opt_str(cookies)) == Some(pairs_view(v@)),
            None => request_headers(opt_str(headers), opt_str(cookies)) is None,
        },
{
    if headers.is_none() && cookies.is_none() {
        return None;
    }
    let ghost hv = opt_str(headers);
    let ghost cv = opt_str(cookies);
    let mut out: Vec<(String, String)> = Vec::new();
    match headers {
        None => {},
        Some(h) => {
            let cs = chars_of(h.as_str());
            let bounds = split_bounds(&cs, 0, cs.len(), ',');
            let ghost items = split(h@, ',');
            assert(cs@.subrange(0, cs@.len() as int) =~= h@);
            let mut k: usize = 0;
            while k < bounds.len()
                invariant
                    cs@ == h@,
                    items == split(h@, ','),
                    bounds@.len() == items.len(),
                    forall|j: int|
                        0 <= j < bounds@.len() ==> 0 <= (#[trigger] bounds@[j]).0 <= bounds@[j].1
                            <= cs@.len(),
                    forall|j: int|
                        0 <= j < bounds@.len() ==> #[trigger] cs@.subrange(
                            bounds@[j].0 as int,
                            bounds@[j].1 as int,
                        ) == items[j],
                    0 <= k <= bounds@.len(),
                    pairs_view(out@) == headers_of(items.take(k as int)),
                decreases bounds.len() - k,
            {
                let (lo, hi) = bounds[k];
                assert(items.take(k + 1).drop_last() =~= items.take(k as int));
                assert(items.take(k + 1).last() == items[k as int]);
                let ghost before = out@;
                match header_at(h.as_str(), &cs, lo, hi) {
                    Some(p) => {
                        out.push(p);
                        assert(pairs_view(out@) =~= pairs_view(before) + seq![(p.0@, p.1@)]);
                    },
                    None => {
                        assert(headers_of(items.take(k + 1)) =~= headers_of(items.take(k as int)));
                    },
                }
                k = k + 1;
            }
            assert(items.take(k as int) =~= items);
        },
    }
    let ghost from_headers = pairs_view(out@);
    assert(from_headers == match hv {
        Some(h) => headers_of(split(h, ',')),
        None => Seq::empty(),
    }) by {
        if hv is None {
            assert(pairs_view(Seq::<(String, String)>::empty()) =~= Seq::empty());
        }
    }
    match cookies {
        None => {
            assert(from_headers + Seq::<(Seq<char>, Seq<char>)>::empty() =~= from_headers);
        },
        Some(c) => {
            let name = String::from_str("Cookie");
            let ghost before = out@;
            out.push((name, c));
            assert(pairs_view(out@) =~= pairs_view(before) + seq![("Cookie"@, cv->0)]);
        },
    }
    Some(out)
}

} // verus!
