use vstd::prelude::*;

verus! {

use crate::asciitext::str_eq;
use crate::ledger::Receipt;
use crate::timefmt::{parse_iso, ts_of};

/// The instant a receipt was stored, where its timestamp parses.
pub open spec fn rec_ts(r: Receipt) -> Option<i128> {
    ts_of(r.stored_at@)
}

/// The order on possibly-absent instants: an absent one comes before any
/// present one.
pub open spec fn okey_le(a: Option<i128>, b: Option<i128>) -> bool {
    match a {
        None => true,
        Some(x) => match b {
            None => false,
            Some(y) => x <= y,
        },
    }
}

/// Whether a receipt passes the search filters: its key id matches where
/// a key filter is given, and its stored instant parses and is no older
/// than the bound where a time filter is given.
pub open spec fn keep(r: Receipt, kidf: Option<Seq<char>>, since: Option<i128>) -> bool {
    &&& (kidf is None || r.kid@ == kidf->0)
    &&& (since is None || (rec_ts(r) is Some && rec_ts(r)->0 >= since->0))
}

/// The receipts that pass the filters, in their given order.
pub open spec fn filter_keep(
    s: Seq<Receipt>,
    kidf: Option<Seq<char>>,
    since: Option<i128>,
) -> Seq<Receipt>
    decreases s.len(),
{
    if s.len() == 0 {
        Seq::<Receipt>::empty()
    } else {
        filter_keep(s.drop_last(), kidf, since) + (if keep(s.last(), kidf, since) {
            seq![s.last()]
        } else {
            Seq::<Receipt>::empty()
        })
    }
}

/// Places `x` after every element at least as new: the stable insertion
/// step of a newest-first sort.
pub open spec fn insert_desc(s: Seq<Receipt>, x: Receipt) -> Seq<Receipt>
    decreases s.len(),
{
    if s.len() == 0 {
        seq![x]
    } else if okey_le(rec_ts(x), rec_ts(s.last())) {
        s.push(x)
    } else {
        insert_desc(s.drop_last(), x).push(s.last())
    }
}

/// The stable newest-first sort: each element inserted in turn.
pub open spec fn sort_desc(s: Seq<Receipt>) -> Seq<Receipt>
    decreases s.len(),
{
    if s.len() == 0 {
        Seq::<Receipt>::empty()
    } else {
        insert_desc(sort_desc(s.drop_last()), s.last())
    }
}

/// What a search returns: the filtered receipts, newest first, ties in
/// their stored order, cut to the cap where one is given.
pub open spec fn spec_search(
    s: Seq<Receipt>,
    kidf: Option<Seq<char>>,
    since: Option<i128>,
    limit: Option<int>,
) -> Seq<Receipt> {
    let fs = sort_desc(filter_keep(s, kidf, since));
    match limit {
        Some(l) => if fs.len() > l {
            fs.take(l)
        } else {
            fs
        },
        None => fs,
    }
}

/// Where the insertion step puts its element.
pub open spec fn ins_pos(s: Seq<Receipt>, x: Receipt) -> int
    decreases s.len(),
{
    if s.len() == 0 {
        0
    } else if okey_le(rec_ts(x), rec_ts(s.last())) {
        s.len() as int
    } else {
        ins_pos(s.drop_last(), x)
    }
}

pub proof fn lemma_insert_desc_at(s: Seq<Receipt>, x: Receipt)
    ensures
        0 <= ins_pos(s, x) <= s.len(),
        insert_desc(s, x) == s.take(ins_pos(s, x)) + seq![x] + s.skip(ins_pos(s, x)),
        insert_desc(s, x).len() == s.len() + 1,
    decreases s.len(),
{
    if s.len() == 0 {
        assert(insert_desc(s, x) =~= s.take(0) + seq![x] + s.skip(0));
    } else if okey_le(rec_ts(x), rec_ts(s.last())) {
        assert(insert_desc(s, x) =~= s.take(s.len() as int) + seq![x] + s.skip(s.len() as int));
    } else {
        let dl = s.drop_last();
        lemma_insert_desc_at(dl, x);
        let p = ins_pos(dl, x);
        assert(insert_desc(s, x) == insert_desc(dl, x).push(s.last()));
        assert(dl.take(p) =~= s.take(p));
        assert((dl.take(p) + seq![x] + dl.skip(p)).push(s.last()) =~= s.take(p) + seq![x]
            + s.skip(p));
    }
}

/// Sorting keeps the number of receipts.
pub proof fn lemma_sort_len(s: Seq<Receipt>)
    ensures
        sort_desc(s).len() == s.len(),
    decreases s.len(),
{
    if s.len() > 0 {
        lemma_sort_len(s.drop_last());
        lemma_insert_desc_at(sort_desc(s.drop_last()), s.last());
    }
}

/// True where the receipts stand newest first.
pub open spec fn sorted_desc(s: Seq<Receipt>) -> bool {
    forall|i: int, j: int| 0 <= i <= j < s.len() ==> okey_le(rec_ts(s[j]), rec_ts(s[i]))
}

pub proof fn lemma_okey_total(a: Option<i128>, b: Option<i128>)
    ensures
        okey_le(a, b) || okey_le(b, a),
        okey_le(a, b) && okey_le(b, a) ==> a == b || (a is Some && b is Some),
{
}

pub proof fn lemma_insert_desc_sorted(s: Seq<Receipt>, x: Receipt)
    requires
        sorted_desc(s),
    ensures
        sorted_desc(insert_desc(s, x)),
        insert_desc(s, x).to_multiset() == s.to_multiset().insert(x),
    decreases s.len(),
{
    broadcast use vstd::seq_lib::group_to_multiset_ensures;

    if s.len() == 0 {
        assert(insert_desc(s, x) =~= Seq::<Receipt>::empty().push(x));
        assert(Seq::<Receipt>::empty().push(x).to_multiset() =~= s.to_multiset().insert(x));
        assert forall|i: int, j: int|
            0 <= i <= j < insert_desc(s, x).len() implies okey_le(
            rec_ts(insert_desc(s, x)[j]),
            rec_ts(insert_desc(s, x)[i]),
        ) by {}
    } else if okey_le(rec_ts(x), rec_ts(s.last())) {
        let out = s.push(x);
        assert forall|i: int, j: int|
            0 <= i <= j < out.len() implies okey_le(rec_ts(out[j]), rec_ts(out[i])) by {
            if j == out.len() - 1 {
                if i < out.len() - 1 {
                    assert(okey_le(rec_ts(s[s.len() - 1]), rec_ts(s[i])));
                }
            }
        }
        assert(out.to_multiset() =~= s.to_multiset().insert(x));
    } else {
        let dl = s.drop_last();
        assert(sorted_desc(dl));
        lemma_insert_desc_sorted(dl, x);
        lemma_insert_desc_at(dl, x);
        let inner = insert_desc(dl, x);
        let out = inner.push(s.last());
        assert(insert_desc(s, x) == out);
        // the last element of s is older than x and than everything in dl
        assert forall|i: int, j: int|
            0 <= i <= j < out.len() implies okey_le(rec_ts(out[j]), rec_ts(out[i])) by {
            if j == out.len() - 1 {
                if i < out.len() - 1 {
                    let p = ins_pos(dl, x);
                    if i == p {
                        assert(inner[i] == x);
                        assert(!okey_le(rec_ts(x), rec_ts(s.last())));
                        lemma_okey_total(rec_ts(x), rec_ts(s.last()));
                    } else if i < p {
                        assert(inner[i] == dl[i]);
                        assert(okey_le(rec_ts(s[s.len() - 1]), rec_ts(s[i])));
                    } else {
                        assert(inner[i] == dl[i - 1]);
                        assert(okey_le(rec_ts(s[s.len() - 1]), rec_ts(s[i - 1])));
                    }
                }
            } else {
                assert(okey_le(rec_ts(inner[j]), rec_ts(inner[i])));
            }
        }
        assert(out.to_multiset() =~= dl.to_multiset().insert(x).insert(s.last()));
        assert(dl.push(s.last()) =~= s);
        assert(dl.push(s.last()).to_multiset() =~= dl.to_multiset().insert(s.last()));
        assert(out.to_multiset() =~= s.to_multiset().insert(x));
    }
}

pub proof fn lemma_sort_desc_sorted(s: Seq<Receipt>)
    ensures
        sorted_desc(sort_desc(s)),
        sort_desc(s).to_multiset() == s.to_multiset(),
    decreases s.len(),
{
    broadcast use vstd::seq_lib::group_to_multiset_ensures;

    if s.len() == 0 {
    } else {
        let dl = s.drop_last();
        lemma_sort_desc_sorted(dl);
        lemma_insert_desc_sorted(sort_desc(dl), s.last());
        assert(dl.push(s.last()) =~= s);
        assert(dl.push(s.last()).to_multiset() =~= dl.to_multiset().insert(s.last()));
    }
}

/// With no filters, the filter step keeps everything.
pub proof fn lemma_filter_none(s: Seq<Receipt>)
    ensures
        filter_keep(s, None, None) == s,
    decreases s.len(),
{
    if s.len() > 0 {
        lemma_filter_none(s.drop_last());
        assert(filter_keep(s, None, None) =~= s.drop_last().push(s.last()));
        assert(s.drop_last().push(s.last()) =~= s);
    }
}

/// Returns the receipts that pass the filters, newest first, ties kept in
/// their stored order, cut to `limit` entries where one is given. An
/// unparseable `since` is no filter; a receipt whose own timestamp does
/// not parse is dropped only under an active `since` filter.
#[verifier::loop_isolation(false)]
pub fn search_records(
    recs: Vec<Receipt>,
    kid: &Option<String>,
    since: Option<i128>,
    limit: Option<usize>,
) -> (r: Vec<Receipt>)
    ensures
        r@ == spec_search(
            recs@,
            match kid {
                None => None,
                Some(k) => Some(k@),
            },
            since,
            match limit {
                None => None,
                Some(l) => Some(l as int),
            },
        ),
{
    let ghost orig = recs@;
    let ghost kidf: Option<Seq<char>> = match kid {
        None => None,
        Some(k) => Some(k@),
    };
    let mut rest = recs;
    let mut kept: Vec<Receipt> = Vec::new();
    let tot_exec = rest.len();
    let ghost total = orig.len() as int;
    proof {
        assert(orig.take(0) =~= Seq::<Receipt>::empty());
    }
    let mut k: usize = 0;
    while rest.len() > 0
        invariant
            0 <= k <= total,
            rest@ =~= orig.skip(k as int),
            kept@ == filter_keep(orig.take(k as int), kidf, since),
            kidf == (match kid {
                None::<String> => None::<Seq<char>>,
                Some(kk) => Some(kk@),
            }),
        decreases rest@.len(),
    {
        proof {
            assert(orig.skip(k as int).len() == total - k);
            assert(orig.skip(k as int)[0] == orig[k as int]);
        }
        let x = rest.remove(0);
        proof {
            assert(x == orig[k as int]);
            assert(orig.skip(k as int).remove(0) =~= orig.skip(k + 1));
            assert(rest@ =~= orig.skip(k + 1));
            assert(orig.take(k + 1).drop_last() =~= orig.take(k as int));
            assert(orig.take(k + 1).last() == orig[k as int]);
        }
        let kid_ok = match kid {
            None => true,
            Some(want) => str_eq(x.kid.as_str(), want.as_str()),
        };
        let since_ok = match since {
            None => true,
            Some(bound) => {
                match parse_iso(x.stored_at.as_str()) {
                    Some(t) => t >= bound,
                    None => false,
                }
            },
        };
        if kid_ok && since_ok {
            kept.push(x);
            proof {
                assert(keep(orig[k as int], kidf, since));
                assert(kept@ =~= filter_keep(orig.take(k + 1), kidf, since));
            }
        } else {
            proof {
                assert(!keep(orig[k as int], kidf, since));
                assert(kept@ =~= filter_keep(orig.take(k + 1), kidf, since));
            }
        }
        k = k + 1;
    }
    proof {
        assert(orig.take(total) =~= orig);
    }
    let ghost fs = filter_keep(orig, kidf, since);
    // newest first
    let mut sorted: Vec<Receipt> = Vec::new();
    let mut rest2 = kept;
    let flen_exec = rest2.len();
    let mut m: usize = 0;
    let ghost flen = fs.len() as int;
    proof {
        assert(fs.take(0) =~= Seq::<Receipt>::empty());
    }
    while rest2.len() > 0
        invariant
            0 <= m <= flen,
            rest2@ =~= fs.skip(m as int),
            sorted@ == sort_desc(fs.take(m as int)),
        decreases rest2@.len(),
    {
        proof {
            assert(fs.skip(m as int).len() == flen - m);
            assert(fs.skip(m as int)[0] == fs[m as int]);
        }
        let x = rest2.remove(0);
        proof {
            assert(x == fs[m as int]);
            assert(fs.skip(m as int).remove(0) =~= fs.skip(m + 1));
            assert(rest2@ =~= fs.skip(m + 1));
            assert(fs.take(m + 1).drop_last() =~= fs.take(m as int));
            assert(fs.take(m + 1).last() == fs[m as int]);
        }
        let kx = parse_iso(x.stored_at.as_str());
        let mut j = sorted.len();
        while j > 0
            invariant
                0 <= j <= sorted@.len(),
                kx == rec_ts(x),
                forall|m2: int|
                    j <= m2 < sorted@.len() ==> !okey_le(kx, rec_ts(#[trigger] sorted@[m2])),
            decreases j,
        {
            let ky = parse_iso(sorted[j - 1].stored_at.as_str());
            let le = match kx {
                None => true,
                Some(xv) => match ky {
                    None => false,
                    Some(yv) => xv <= yv,
                },
            };
            if le {
                break ;
            }
            j = j - 1;
        }
        proof {
            lemma_ins_pos_from_scan(sorted@, x, j as int);
            lemma_insert_desc_at(sorted@, x);
        }
        sorted.insert(j, x);
        proof {
            assert(sorted@ =~= sort_desc(fs.take(m + 1)));
        }
        m = m + 1;
    }
    proof {
        assert(fs.take(flen) =~= fs);
    }
    let mut out = sorted;
    match limit {
        None => {},
        Some(l) => {
            if out.len() > l {
                out.truncate(l);
            }
        },
    }
    out
}

/// A scan from the back that stopped at `j` found the insertion position.
proof fn lemma_ins_pos_from_scan(s: Seq<Receipt>, x: Receipt, j: int)
    requires
        0 <= j <= s.len(),
        forall|m2: int| j <= m2 < s.len() ==> !okey_le(rec_ts(x), rec_ts(#[trigger] s[m2])),
        j > 0 ==> okey_le(rec_ts(x), rec_ts(s[j - 1])),
    ensures
        ins_pos(s, x) == j,
    decreases s.len(),
{
    if s.len() == 0 {
    } else if okey_le(rec_ts(x), rec_ts(s.last())) {
        assert(j == s.len());
    } else {
        assert(j < s.len() || !okey_le(rec_ts(x), rec_ts(s[j - 1])));
        assert(j <= s.len() - 1);
        lemma_ins_pos_from_scan(s.drop_last(), x, j);
    }
}

/// Every receipt the filter keeps passed it and came from the input.
pub proof fn lemma_filter_members(s: Seq<Receipt>, kidf: Option<Seq<char>>, since: Option<i128>)
    ensures
        forall|i: int|
            0 <= i < filter_keep(s, kidf, since).len() ==> keep(
                #[trigger] filter_keep(s, kidf, since)[i],
                kidf,
                since,
            ) && s.contains(filter_keep(s, kidf, since)[i]),
    decreases s.len(),
{
    if s.len() > 0 {
        let dl = s.drop_last();
        lemma_filter_members(dl, kidf, since);
        let fs = filter_keep(s, kidf, since);
        let fd = filter_keep(dl, kidf, since);
        assert forall|i: int|
            0 <= i < fs.len() implies keep(#[trigger] fs[i], kidf, since) && s.contains(
            fs[i],
        ) by {
            if i < fd.len() {
                assert(fs[i] == fd[i]);
                let j = choose|j: int| 0 <= j < dl.len() && dl[j] == fd[i];
                assert(s[j] == fd[i]);
            } else {
                assert(keep(s.last(), kidf, since));
                assert(fs[i] == s.last());
                assert(s[s.len() - 1] == s.last());
            }
        }
    }
}

/// What any search result looks like: newest first, within the cap, and
/// every entry passed the filters and stood among the searched receipts.
pub proof fn lemma_search_shape(
    s: Seq<Receipt>,
    kidf: Option<Seq<char>>,
    since: Option<i128>,
    limit: Option<int>,
)
    requires
        limit matches Some(l) ==> l >= 0,
    ensures
        sorted_desc(spec_search(s, kidf, since, limit)),
        limit matches Some(l) ==> spec_search(s, kidf, since, limit).len() <= l,
        forall|i: int|
            0 <= i < spec_search(s, kidf, since, limit).len() ==> keep(
                #[trigger] spec_search(s, kidf, since, limit)[i],
                kidf,
                since,
            ) && s.contains(spec_search(s, kidf, since, limit)[i]),
{
    broadcast use vstd::seq_lib::group_to_multiset_ensures;

    let fs = filter_keep(s, kidf, since);
    lemma_filter_members(s, kidf, since);
    lemma_sort_desc_sorted(fs);
    lemma_sort_len(fs);
    let sorted = sort_desc(fs);
    assert forall|i: int|
        0 <= i < sorted.len() implies keep(#[trigger] sorted[i], kidf, since) && s.contains(
        sorted[i],
    ) by {
        assert(sorted.contains(sorted[i]));
        assert(sorted.to_multiset().contains(sorted[i]));
        assert(fs.to_multiset().contains(sorted[i]));
        assert(fs.contains(sorted[i]));
        let j = choose|j: int| 0 <= j < fs.len() && fs[j] == sorted[i];
        assert(keep(fs[j], kidf, since));
    }
    let out = spec_search(s, kidf, since, limit);
    assert forall|i: int| 0 <= i < out.len() implies out[i] == sorted[i] by {
        match limit {
            Some(l) => {
                if sorted.len() > l {
                    assert(out == sorted.take(l));
                }
            },
            None => {},
        }
    }
}

/// Of three receipts stored at successive instants, a search bounded
/// below by the middle instant returns the two newest, newest first.
pub proof fn lemma_since_order(
    r1: Receipt,
    r2: Receipt,
    r3: Receipt,
    t1: i128,
    t2: i128,
    t3: i128,
)
    requires
        rec_ts(r1) == Some(t1),
        rec_ts(r2) == Some(t2),
        rec_ts(r3) == Some(t3),
        t1 < t2 < t3,
    ensures
        spec_search(seq![r1, r2, r3], None, Some(t2), None) == seq![r3, r2],
{
    let s = seq![r1, r2, r3];
    assert(s.drop_last() =~= seq![r1, r2]);
    assert(seq![r1, r2].drop_last() =~= seq![r1]);
    assert(seq![r1].drop_last() =~= Seq::<Receipt>::empty());
    assert(filter_keep(Seq::<Receipt>::empty(), None, Some(t2)) == Seq::<Receipt>::empty());
    assert(sort_desc(Seq::<Receipt>::empty()) == Seq::<Receipt>::empty());
    assert(!keep(r1, None, Some(t2)));
    assert(keep(r2, None, Some(t2)));
    assert(keep(r3, None, Some(t2)));
    assert(filter_keep(seq![r1].drop_last(), None, Some(t2)) == Seq::<Receipt>::empty());
    assert(seq![r1].last() == r1);
    assert(filter_keep(seq![r1], None, Some(t2)) =~= Seq::<Receipt>::empty());
    assert(filter_keep(seq![r1, r2], None, Some(t2)) =~= seq![r2]);
    let fs = filter_keep(s, None, Some(t2));
    assert(fs =~= seq![r2, r3]);
    assert(fs.drop_last() =~= seq![r2]);
    assert(seq![r2].drop_last() =~= Seq::<Receipt>::empty());
    assert(sort_desc(seq![r2].drop_last()) == Seq::<Receipt>::empty());
    assert(seq![r2].last() == r2);
    assert(sort_desc(seq![r2]) == insert_desc(Seq::<Receipt>::empty(), r2));
    assert(sort_desc(seq![r2]) =~= seq![r2]);
    assert(!okey_le(rec_ts(r3), rec_ts(seq![r2].last())));
    assert(insert_desc(seq![r2], r3) == insert_desc(Seq::<Receipt>::empty(), r3).push(r2));
    assert(insert_desc(seq![r2], r3) =~= seq![r3, r2]);
    assert(sort_desc(fs) =~= seq![r3, r2]);
}

/// A search capped at one entry returns one receipt, and none of the
/// searched receipts was stored later.
pub proof fn lemma_limit_one(s: Seq<Receipt>)
    requires
        s.len() >= 1,
    ensures
        spec_search(s, None, None, Some(1)).len() == 1,
        forall|i: int|
            0 <= i < s.len() ==> okey_le(
                rec_ts(#[trigger] s[i]),
                rec_ts(spec_search(s, None, None, Some(1))[0]),
            ),
{
    broadcast use vstd::seq_lib::group_to_multiset_ensures;

    lemma_filter_none(s);
    lemma_sort_desc_sorted(s);
    lemma_sort_len(s);
    let fs = sort_desc(s);
    assert(fs.len() == s.len());
    let out = spec_search(s, None, None, Some(1));
    if fs.len() > 1 {
        assert(out =~= fs.take(1));
    } else {
        assert(out =~= fs);
    }
    assert(out[0] == fs[0]);
    assert forall|i: int| 0 <= i < s.len() implies okey_le(
        rec_ts(#[trigger] s[i]),
        rec_ts(out[0]),
    ) by {
        assert(s.to_multiset().contains(s[i]));
        assert(fs.to_multiset().contains(s[i]));
        assert(fs.contains(s[i]));
        let j = choose|j: int| 0 <= j < fs.len() && fs[j] == s[i];
        assert(okey_le(rec_ts(fs[j]), rec_ts(fs[0])));
    }
}

} // verus!
