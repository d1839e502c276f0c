use vstd::prelude::*;

verus! {

use crate::asciitext::{ascii_chars, bytes_to_string, sub_vec};
use crate::b64::b64_of;
use crate::hashes::{blake3_b64, blake3_of};

/// An upper-case ASCII letter folded to lower case; any other byte kept.
pub open spec fn lower_byte(x: u8) -> u8 {
    if 0x41 <= x && x <= 0x5a {
        (x + 0x20) as u8
    } else {
        x
    }
}

pub open spec fn lower(b: Seq<u8>) -> Seq<u8> {
    Seq::new(b.len(), |i: int| lower_byte(b[i]))
}

/// True of a blank byte that header trimming removes.
pub open spec fn ws_byte(x: u8) -> bool {
    x == 0x20 || x == 0x09 || x == 0x0d || x == 0x0a
}

pub open spec fn trim_start_bytes(b: Seq<u8>) -> Seq<u8>
    decreases b.len(),
{
    if b.len() > 0 && ws_byte(b[0]) {
        trim_start_bytes(b.drop_first())
    } else {
        b
    }
}

pub open spec fn trim_end_bytes(b: Seq<u8>) -> Seq<u8>
    decreases b.len(),
{
    if b.len() > 0 && ws_byte(b.last()) {
        trim_end_bytes(b.drop_last())
    } else {
        b
    }
}

/// Both ends trimmed of blanks.
pub open spec fn trim_bytes(b: Seq<u8>) -> Seq<u8> {
    trim_start_bytes(trim_end_bytes(b))
}

/// The first position at or after `i` where `pat` stands inside `e`.
pub open spec fn find_at(e: Seq<u8>, pat: Seq<u8>, i: int) -> Option<int>
    decreases e.len() - i,
{
    if i < 0 || pat.len() == 0 || i + pat.len() > e.len() {
        None
    } else if e.subrange(i, i + pat.len()) == pat {
        Some(i)
    } else {
        find_at(e, pat, i + 1)
    }
}

/// The header block of a message: what stands before the first blank
/// line, a CRLF pair preferred over a bare LF pair.
pub open spec fn hdr_block(e: Seq<u8>) -> Option<Seq<u8>> {
    match find_at(e, seq![0x0du8, 0x0au8, 0x0du8, 0x0au8], 0) {
        Some(i) => Some(e.take(i)),
        None => match find_at(e, seq![0x0au8, 0x0au8], 0) {
            Some(i) => Some(e.take(i)),
            None => None,
        },
    }
}

/// One line per entry, split at line feeds, a carriage return before a
/// line feed dropped, no entry for a trailing terminator.
pub open spec fn line_seq(h: Seq<u8>) -> Seq<Seq<u8>>
    decreases h.len(),
{
    if h.len() == 0 {
        Seq::<Seq<u8>>::empty()
    } else {
        match find_at(h, seq![0x0au8], 0) {
            Some(j) => if 0 <= j < h.len() {
                seq![strip_cr(h.take(j))] + line_seq(h.skip(j + 1))
            } else {
                seq![h]
            },
            None => seq![h],
        }
    }
}

pub open spec fn strip_cr(l: Seq<u8>) -> Seq<u8> {
    if l.len() > 0 && l.last() == 0x0d {
        l.drop_last()
    } else {
        l
    }
}

/// The lower-cased bytes of the header name this selector looks for,
/// colon included.
pub open spec fn dkim_key() -> Seq<u8> {
    seq![
        0x64u8, 0x6bu8, 0x69u8, 0x6du8, 0x2du8, 0x73u8, 0x69u8, 0x67u8, 0x6eu8, 0x61u8, 0x74u8,
        0x75u8, 0x72u8, 0x65u8, 0x3au8,
    ]
}

/// True where the line opens the domain-signature header, case blind.
pub open spec fn is_dkim_start(l: Seq<u8>) -> bool {
    l.len() >= 15 && lower(l).subrange(0, 15) == dkim_key()
}

/// True where the line continues a folded header.
pub open spec fn is_cont(l: Seq<u8>) -> bool {
    l.len() > 0 && (l[0] == 0x20 || l[0] == 0x09)
}

/// The collected value of the first domain-signature header: its first
/// line after the colon, then each continuation line, each trimmed and
/// followed by one space; collection stops at the first line that is no
/// continuation.
pub open spec fn collect_from(ls: Seq<Seq<u8>>, i: int, started: bool, acc: Seq<u8>) -> Seq<u8>
    decreases ls.len() - i,
{
    if i < 0 || i >= ls.len() {
        acc
    } else if !started {
        if is_dkim_start(ls[i]) {
            collect_from(ls, i + 1, true, acc + trim_bytes(ls[i].skip(15)) + seq![0x20u8])
        } else {
            collect_from(ls, i + 1, false, acc)
        }
    } else if is_cont(ls[i]) {
        collect_from(ls, i + 1, true, acc + trim_bytes(ls[i]) + seq![0x20u8])
    } else {
        acc
    }
}

/// A plus becomes a minus and a slash an underscore: standard base64
/// mapped onto the URL-safe alphabet.
pub open spec fn subst_byte(x: u8) -> u8 {
    if x == 0x2b {
        0x2d
    } else if x == 0x2f {
        0x5f
    } else {
        x
    }
}

pub open spec fn drop_pad(b: Seq<u8>) -> Seq<u8>
    decreases b.len(),
{
    if b.len() > 0 && b.last() == 0x3d {
        drop_pad(b.drop_last())
    } else {
        b
    }
}

/// The body hash normalized: URL-safe alphabet, no padding.
pub open spec fn normalize_bh(b: Seq<u8>) -> Seq<u8> {
    drop_pad(Seq::new(b.len(), |i: int| subst_byte(b[i])))
}

/// The body hash the message's domain-signature header supplies, where
/// one stands: the text between `bh=` (case blind) and the next
/// semicolon or the value's end, trimmed, normalized to the URL-safe
/// alphabet without padding.
pub open spec fn dkim_bh(e: Seq<u8>) -> Option<Seq<u8>> {
    match hdr_block(e) {
        None => None,
        Some(h) => {
            let val = collect_from(line_seq(h), 0, false, Seq::<u8>::empty());
            if val.len() == 0 {
                None
            } else {
                match find_at(lower(val), seq![0x62u8, 0x68u8, 0x3du8], 0) {
                    None => None,
                    Some(p) => {
                        let after = val.skip(p + 3);
                        let end = match find_at(after, seq![0x3bu8], 0) {
                            Some(q) => q,
                            None => after.len() as int,
                        };
                        let bh = trim_bytes(after.take(end));
                        if bh.len() == 0 {
                            None
                        } else {
                            Some(normalize_bh(bh))
                        }
                    },
                }
            }
        },
    }
}

/// Whether `pat` stands at position `i` of `e`.
fn pat_at(e: &[u8], i: usize, pat: &[u8]) -> (r: bool)
    requires
        i + pat@.len() <= e@.len(),
    ensures
        r == (e@.subrange(i as int, i + pat@.len()) == pat@),
{
    let n = e.len();
    let m = pat.len();
    let mut k: usize = 0;
    while k < m
        invariant
            0 <= k <= m,
            n == e@.len(),
            i + m <= n,
            m == pat@.len(),
            forall|t: int| 0 <= t < k ==> e@[i + t] == pat@[t],
        decreases m - k,
    {
        if e[i + k] != pat[k] {
            proof {
                assert(e@.subrange(i as int, i + pat@.len())[k as int] == e@[i + k]);
            }
            return false;
        }
        k = k + 1;
    }
    proof {
        assert(e@.subrange(i as int, i + pat@.len()) =~= pat@);
    }
    true
}

/// Finds `pat` inside `e`, at or after `from`.
pub fn find_pat(e: &[u8], pat: &[u8], from: usize) -> (r: Option<usize>)
    requires
        from <= e@.len(),
        pat@.len() >= 1,
    ensures
        match r {
            Some(p) => Some(p as int) == find_at(e@, pat@, from as int),
            None => find_at(e@, pat@, from as int) is None,
        },
{
    let n = e.len();
    let m = pat.len();
    if m > n {
        return None;
    }
    let mut i = from;
    while i <= n - m
        invariant
            from <= i,
            i <= n,
            n == e@.len(),
            m == pat@.len(),
            1 <= m <= n,
            find_at(e@, pat@, from as int) == find_at(e@, pat@, i as int),
        decreases n - i,
    {
        if pat_at(e, i, pat) {
            return Some(i);
        }
        i = i + 1;
    }
    None
}

/// A found pattern lies inside the text.
pub proof fn lemma_find_at_some(e: Seq<u8>, pat: Seq<u8>, i: int)
    ensures
        find_at(e, pat, i) matches Some(p) ==> 0 <= i <= p && p + pat.len() <= e.len()
            && e.subrange(p, p + pat.len()) == pat,
    decreases e.len() - i,
{
    if !(i < 0 || pat.len() == 0 || i + pat.len() > e.len()) {
        if e.subrange(i, i + pat.len()) == pat {
        } else {
            lemma_find_at_some(e, pat, i + 1);
        }
    }
}

/// Stepping past the head of a line list shifts the collection index.
proof fn lemma_collect_shift(l: Seq<u8>, tail: Seq<Seq<u8>>, k: int, st: bool, acc: Seq<u8>)
    requires
        k >= 0,
    ensures
        collect_from(seq![l] + tail, k + 1, st, acc) == collect_from(tail, k, st, acc),
    decreases tail.len() - k,
{
    let ls = seq![l] + tail;
    if k >= tail.len() {
    } else {
        assert(ls[k + 1] == tail[k]);
        if !st {
            if is_dkim_start(tail[k]) {
                lemma_collect_shift(
                    l,
                    tail,
                    k + 1,
                    true,
                    acc + trim_bytes(tail[k].skip(15)) + seq![0x20u8],
                );
            } else {
                lemma_collect_shift(l, tail, k + 1, false, acc);
            }
        } else if is_cont(tail[k]) {
            lemma_collect_shift(l, tail, k + 1, true, acc + trim_bytes(tail[k]) + seq![0x20u8]);
        }
    }
}

/// The blanks trimmed from both ends of a byte range.
fn trim_range(b: &[u8], from: usize, to: usize) -> (r: Vec<u8>)
    requires
        from <= to <= b@.len(),
    ensures
        r@ == trim_bytes(b@.subrange(from as int, to as int)),
{
    let mut hi = to;
    while hi > from
        invariant
            from <= hi <= to <= b@.len(),
            trim_end_bytes(b@.subrange(from as int, to as int)) == trim_end_bytes(
                b@.subrange(from as int, hi as int),
            ),
        ensures
            from <= hi <= to,
            trim_end_bytes(b@.subrange(from as int, to as int)) == trim_end_bytes(
                b@.subrange(from as int, hi as int),
            ),
            hi == from || !ws_byte(b@[hi - 1]),
        decreases hi,
    {
        let x = b[hi - 1];
        if !(x == 0x20 || x == 0x09 || x == 0x0d || x == 0x0a) {
            break ;
        }
        proof {
            assert(b@.subrange(from as int, hi as int).last() == b@[hi - 1]);
            assert(b@.subrange(from as int, hi as int).drop_last() =~= b@.subrange(
                from as int,
                hi - 1,
            ));
        }
        hi = hi - 1;
    }
    proof {
        let cur = b@.subrange(from as int, hi as int);
        if cur.len() > 0 && ws_byte(cur.last()) {
            assert(cur.last() == b@[hi - 1]);
        }
        assert(trim_end_bytes(cur) == cur);
    }
    let mut lo = from;
    while lo < hi
        invariant
            from <= lo <= hi <= b@.len(),
            trim_start_bytes(b@.subrange(from as int, hi as int)) == trim_start_bytes(
                b@.subrange(lo as int, hi as int),
            ),
        ensures
            from <= lo <= hi,
            trim_start_bytes(b@.subrange(from as int, hi as int)) == trim_start_bytes(
                b@.subrange(lo as int, hi as int),
            ),
            lo == hi || !ws_byte(b@[lo as int]),
        decreases hi - lo,
    {
        let x = b[lo];
        if !(x == 0x20 || x == 0x09 || x == 0x0d || x == 0x0a) {
            break ;
        }
        proof {
            assert(b@.subrange(lo as int, hi as int)[0] == b@[lo as int]);
            assert(b@.subrange(lo as int, hi as int).drop_first() =~= b@.subrange(
                lo + 1,
                hi as int,
            ));
        }
        lo = lo + 1;
    }
    proof {
        let cur = b@.subrange(lo as int, hi as int);
        if cur.len() > 0 && ws_byte(cur[0]) {
            assert(cur[0] == b@[lo as int]);
        }
        assert(trim_start_bytes(cur) == cur);
    }
    sub_vec(b, lo, hi)
}

/// Extracts the domain-signature body hash of a message, where its
/// headers supply one: the value after `bh=` up to the next semicolon,
/// trimmed and normalized to URL-safe base64 without padding. Header
/// folding is honoured, and collection stops at the first line that does
/// not continue the header.
#[verifier::loop_isolation(false)]
#[verifier::rlimit(100)]
pub fn find_dkim_bh(eml: &[u8]) -> (r: Option<Vec<u8>>)
    ensures
        r matches Some(v) ==> dkim_bh(eml@) == Some(v@),
        r is None ==> dkim_bh(eml@) is None,
{
    let mut pat4: Vec<u8> = Vec::new();
    pat4.push(0x0d);
    pat4.push(0x0a);
    pat4.push(0x0d);
    pat4.push(0x0a);
    let mut pat2: Vec<u8> = Vec::new();
    pat2.push(0x0a);
    pat2.push(0x0a);
    proof {
        assert(pat4@ =~= seq![0x0du8, 0x0au8, 0x0du8, 0x0au8]);
        assert(pat2@ =~= seq![0x0au8, 0x0au8]);
    }
    let hend = match find_pat(eml, pat4.as_slice(), 0) {
        Some(i) => i,
        None => {
            match find_pat(eml, pat2.as_slice(), 0) {
                Some(i) => i,
                None => {
                    return None;
                },
            }
        },
    };
    proof {
        lemma_find_at_some(eml@, pat4@, 0);
        lemma_find_at_some(eml@, pat2@, 0);
    }
    let h = sub_vec(eml, 0, hend);
    let ghost hv = h@;
    proof {
        assert(hdr_block(eml@) == Some(hv));
    }
    let mut lf: Vec<u8> = Vec::new();
    lf.push(0x0a);
    proof {
        assert(lf@ =~= seq![0x0au8]);
    }
    let mut rest = h;
    let mut started = false;
    let mut acc: Vec<u8> = Vec::new();
    let ghost goal = collect_from(line_seq(hv), 0, false, Seq::<u8>::empty());
    loop
        invariant
            goal == collect_from(line_seq(rest@), 0, started, acc@),
            lf@ == seq![0x0au8],
        decreases rest@.len() + (if started {
            0int
        } else {
            1int
        }),
    {
        if rest.len() == 0 {
            proof {
                assert(line_seq(rest@) =~= Seq::<Seq<u8>>::empty());
                assert(goal == acc@);
            }
            break ;
        }
        let jopt = find_pat(rest.as_slice(), lf.as_slice(), 0);
        proof {
            lemma_find_at_some(rest@, lf@, 0);
        }
        let (le, nxt) = match jopt {
            Some(j) => (j, j + 1),
            None => (rest.len(), rest.len()),
        };
        // the line runs to `se` once a carriage return before the line
        // feed is dropped
        let se = if le > 0 && le < rest.len() && rest[le - 1] == 0x0d {
            le - 1
        } else {
            le
        };
        let ghost line = match jopt {
            Some(j) => strip_cr(rest@.take(j as int)),
            None => rest@,
        };
        proof {
            if jopt is Some {
                assert(line_seq(rest@) == seq![line] + line_seq(rest@.skip(nxt as int)));
                if le > 0 {
                    assert(rest@.take(le as int).last() == rest@[le - 1]);
                }
                assert(line =~= rest@.subrange(0, se as int));
            } else {
                assert(line_seq(rest@) == seq![rest@]);
                assert(line =~= rest@.subrange(0, se as int));
            }
        }
        // does this line open or continue the header?
        let opens = if se >= 15 {
            let mut k: usize = 0;
            let mut ok = true;
            while k < 15
                invariant
                    0 <= k <= 15,
                    se <= rest@.len(),
                    15 <= se,
                    ok == (forall|t: int|
                        0 <= t < k ==> lower_byte(rest@[t]) == #[trigger] dkim_key()[t]),
                decreases 15 - k,
            {
                let x = rest[k];
                let lx = if 0x41 <= x && x <= 0x5a {
                    x + 0x20
                } else {
                    x
                };
                let want = dkim_key_byte(k);
                if lx != want {
                    ok = false;
                }
                k = k + 1;
            }
            proof {
                if ok {
                    assert forall|t: int|
                        0 <= t < 15 implies lower(line).subrange(0, 15)[t] == dkim_key()[t] by {
                        assert(line[t] == rest@[t]);
                    }
                    assert(lower(line).subrange(0, 15) =~= dkim_key());
                } else {
                    let t = choose|t: int|
                        0 <= t < 15 && lower_byte(rest@[t]) != dkim_key()[t];
                    if is_dkim_start(line) {
                        assert(lower(line).subrange(0, 15)[t] == lower_byte(line[t]));
                        assert(line[t] == rest@[t]);
                        assert(false);
                    }
                }
            }
            ok
        } else {
            proof {
                if is_dkim_start(line) {
                    assert(line.len() >= 15);
                }
            }
            false
        };
        let continues = se > 0 && {
            let x = rest[0];
            x == 0x20 || x == 0x09
        };
        proof {
            if se > 0 {
                assert(line[0] == rest@[0]);
            }
            assert(continues == is_cont(line));
        }
        let ghost acc_before = acc@;
        let ghost st0 = started;
        if !started {
            if opens {
                let mut piece = trim_range(rest.as_slice(), 15, se);
                proof {
                    assert(line.skip(15) =~= rest@.subrange(15, se as int));
                }
                acc.append(&mut piece);
                acc.push(0x20);
                started = true;
                proof {
                    assert(acc@ =~= acc_before + trim_bytes(line.skip(15)) + seq![0x20u8]);
                }
            }
        } else {
            if continues {
                let mut piece = trim_range(rest.as_slice(), 0, se);
                proof {
                    assert(line =~= rest@.subrange(0, se as int));
                }
                acc.append(&mut piece);
                acc.push(0x20);
                proof {
                    assert(acc@ =~= acc_before + trim_bytes(line) + seq![0x20u8]);
                }
            } else {
                proof {
                    assert(goal == acc@);
                }
                break ;
            }
        }
        let ghost old_rest = rest@;
        let tail = sub_vec(rest.as_slice(), nxt, rest.len());
        rest = tail;
        proof {
            let tl: Seq<Seq<u8>> = if jopt is Some {
                line_seq(old_rest.skip(nxt as int))
            } else {
                Seq::<Seq<u8>>::empty()
            };
            let ls = seq![line] + tl;
            assert(ls[0] == line);
            if jopt is Some {
                assert(rest@ =~= old_rest.skip(nxt as int));
                assert(line_seq(old_rest) == ls);
            } else {
                assert(rest@ =~= Seq::<u8>::empty());
                assert(line_seq(old_rest) == seq![line]);
                assert(line_seq(old_rest) =~= ls);
                assert(line_seq(rest@) =~= Seq::<Seq<u8>>::empty());
            }
            // one unfolding of the collection, along the branch taken
            if !st0 {
                if is_dkim_start(line) {
                    assert(collect_from(ls, 0, st0, acc_before) == collect_from(
                        ls,
                        1,
                        true,
                        acc_before + trim_bytes(line.skip(15)) + seq![0x20u8],
                    ));
                } else {
                    assert(collect_from(ls, 0, st0, acc_before) == collect_from(
                        ls,
                        1,
                        false,
                        acc_before,
                    ));
                }
            } else {
                assert(is_cont(line));
                assert(collect_from(ls, 0, st0, acc_before) == collect_from(
                    ls,
                    1,
                    true,
                    acc_before + trim_bytes(line) + seq![0x20u8],
                ));
            }
            lemma_collect_shift(line, tl, 0, started, acc@);
            assert(collect_from(ls, 1, started, acc@) == collect_from(tl, 0, started, acc@));
            assert(line_seq(rest@) == tl);
        }
    }
    let ghost val = goal;
    if acc.len() == 0 {
        return None;
    }
    // find the body-hash tag, case blind
    let mut lowered: Vec<u8> = Vec::new();
    let mut t: usize = 0;
    let alen = acc.len();
    while t < alen
        invariant
            0 <= t <= alen,
            alen == acc@.len(),
            lowered@ == lower(acc@).take(t as int),
        decreases alen - t,
    {
        let x = acc[t];
        let lx = if 0x41 <= x && x <= 0x5a {
            x + 0x20
        } else {
            x
        };
        lowered.push(lx);
        proof {
            assert(lowered@ =~= lower(acc@).take(t + 1));
        }
        t = t + 1;
    }
    proof {
        assert(lowered@ =~= lower(acc@));
    }
    let mut bhpat: Vec<u8> = Vec::new();
    bhpat.push(0x62);
    bhpat.push(0x68);
    bhpat.push(0x3d);
    proof {
        assert(bhpat@ =~= seq![0x62u8, 0x68u8, 0x3du8]);
    }
    let p = match find_pat(lowered.as_slice(), bhpat.as_slice(), 0) {
        Some(p) => p,
        None => {
            return None;
        },
    };
    proof {
        lemma_find_at_some(lower(acc@), bhpat@, 0);
    }
    let after = sub_vec(acc.as_slice(), p + 3, acc.len());
    proof {
        assert(after@ =~= acc@.skip(p + 3));
    }
    let mut semi: Vec<u8> = Vec::new();
    semi.push(0x3b);
    proof {
        assert(semi@ =~= seq![0x3bu8]);
    }
    let endq = match find_pat(after.as_slice(), semi.as_slice(), 0) {
        Some(q) => q,
        None => after.len(),
    };
    proof {
        lemma_find_at_some(after@, semi@, 0);
        assert(after@.take(endq as int) == after@.subrange(0, endq as int));
    }
    let bh = trim_range(after.as_slice(), 0, endq);
    if bh.len() == 0 {
        return None;
    }
    // normalize to the URL-safe alphabet and drop padding
    let mut norm: Vec<u8> = Vec::new();
    let blen = bh.len();
    let mut u: usize = 0;
    let ghost mapped = Seq::new(bh@.len(), |i: int| subst_byte(bh@[i]));
    while u < blen
        invariant
            0 <= u <= blen,
            blen == bh@.len(),
            mapped == Seq::new(bh@.len(), |i: int| subst_byte(bh@[i])),
            norm@ == mapped.take(u as int),
        decreases blen - u,
    {
        let x = bh[u];
        let y = if x == 0x2b {
            0x2d
        } else if x == 0x2f {
            0x5f
        } else {
            x
        };
        norm.push(y);
        proof {
            assert(norm@ =~= mapped.take(u + 1));
        }
        u = u + 1;
    }
    proof {
        assert(norm@ =~= mapped);
    }
    while norm.len() > 0 && norm[norm.len() - 1] == 0x3d
        invariant
            drop_pad(mapped) == drop_pad(norm@),
        decreases norm@.len(),
    {
        proof {
            assert(norm@.drop_last() =~= norm@.subrange(0, norm@.len() - 1));
        }
        norm.pop();
    }
    proof {
        assert(norm@.len() == 0 || norm@.last() != 0x3d);
        assert(drop_pad(norm@) == norm@);
        assert(dkim_bh(eml@) == Some(norm@));
    }
    Some(norm)
}

/// Chooses the message-binding digest: the domain-signature body hash
/// where the message carries a well-formed one that reads as text, else
/// the BLAKE3 digest of the whole raw message. Pure in the message
/// bytes.
pub fn select_digest(eml: &[u8]) -> (r: (String, String))
    ensures
        (match dkim_bh(eml@) {
            Some(bh) => vstd::utf8::valid_utf8(bh) && r.0@ == "dkim-bh"@
                && vstd::utf8::encode_utf8(r.1@) == bh,
            None => false,
        }) || ((dkim_bh(eml@) is None || !vstd::utf8::valid_utf8(dkim_bh(eml@)->Some_0))
            && r.0@ == "blake3"@ && r.1@ == ascii_chars(b64_of(blake3_of(eml@)))),
{
    match find_dkim_bh(eml) {
        Some(bh) => {
            let ghost bhv = bh@;
            match bytes_to_string(bh) {
                Some(s) => {
                    proof {
                        vstd::utf8::encode_utf8_valid_utf8(s@);
                    }
                    (alg_name_dkim(), s)
                },
                None => (alg_name_blake3(), blake3_b64(eml)),
            }
        },
        None => (alg_name_blake3(), blake3_b64(eml)),
    }
}

fn alg_name_dkim() -> (r: String)
    ensures
        r@ == "dkim-bh"@,
{
    String::from_str("dkim-bh")
}

fn alg_name_blake3() -> (r: String)
    ensures
        r@ == "blake3"@,
{
    String::from_str("blake3")
}

/// The byte of the lower-cased header name at position `k`.
fn dkim_key_byte(k: usize) -> (r: u8)
    requires
        k < 15,
    ensures
        r == dkim_key()[k as int],
{
    let mut key: Vec<u8> = Vec::new();
    key.push(0x64);
    key.push(0x6b);
    key.push(0x69);
    key.push(0x6d);
    key.push(0x2d);
    key.push(0x73);
    key.push(0x69);
    key.push(0x67);
    key.push(0x6e);
    key.push(0x61);
    key.push(0x74);
    key.push(0x75);
    key.push(0x72);
    key.push(0x65);
    key.push(0x3a);
    proof {
        assert(key@ =~= dkim_key());
    }
    key[k]
}

} // verus!