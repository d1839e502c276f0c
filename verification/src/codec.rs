use vstd::prelude::*;

verus! {

use crate::asciitext::{
    ascii_bytes,
    ascii_chars,
    ascii_seq,
    ascii_to_string,
    json_safe_byte,
    json_safe_bytes,
    lemma_ascii_bytes_of_chars,
    lemma_ascii_chars_of_bytes,
    lemma_ascii_encode_utf8,
    lemma_json_safe_ascii,
    lemma_json_safe_of_bytes,
    sub_vec,
};
use crate::json_safe;
use vstd::string::StringSliceAdditionalSpecFns;

/// True of an ASCII decimal digit byte.
pub open spec fn is_digit(b: u8) -> bool {
    0x30 <= b && b <= 0x39
}

/// The canonical decimal notation of a number, as ASCII bytes: no sign,
/// no leading zero.
pub open spec fn dec_u64(n: nat) -> Seq<u8>
    decreases n,
{
    if n < 10 {
        seq![(0x30 + n) as u8]
    } else {
        dec_u64((n / 10) as nat).push((0x30 + n % 10) as u8)
    }
}

/// The number a digit sequence denotes.
pub open spec fn dec_val(b: Seq<u8>) -> nat
    decreases b.len(),
{
    if b.len() == 0 {
        0
    } else {
        (dec_val(b.drop_last()) * 10 + (b.last() - 0x30)) as nat
    }
}

pub proof fn lemma_dec_shape(n: nat)
    ensures
        dec_u64(n).len() >= 1,
        forall|i: int| 0 <= i < dec_u64(n).len() ==> is_digit(#[trigger] dec_u64(n)[i]),
        dec_u64(n)[0] == 0x30 ==> n == 0,
    decreases n,
{
    if n >= 10 {
        lemma_dec_shape((n / 10) as nat);
        assert(dec_u64(n) == dec_u64((n / 10) as nat).push((0x30 + n % 10) as u8));
        assert(n / 10 >= 1);
    }
}

pub proof fn lemma_dec_val(n: nat)
    ensures
        dec_val(dec_u64(n)) == n,
    decreases n,
{
    lemma_dec_shape(n);
    if n < 10 {
        assert(dec_u64(n) == seq![(0x30 + n) as u8]);
        assert(dec_u64(n).drop_last() =~= Seq::<u8>::empty());
        assert(dec_val(Seq::<u8>::empty()) == 0);
        assert(dec_u64(n).last() == (0x30 + n) as u8);
        assert((0x30 + n) as u8 == 0x30 + n);
        assert(dec_val(dec_u64(n)) == (0 * 10 + (0x30 + n - 0x30)) as nat);
    } else {
        lemma_dec_val((n / 10) as nat);
        let whole = dec_u64((n / 10) as nat).push((0x30 + n % 10) as u8);
        assert(whole.drop_last() =~= dec_u64((n / 10) as nat));
        assert(dec_val(whole) == (n / 10) * 10 + n % 10);
    }
}

/// Two numbers with the same decimal notation are the same number.
pub proof fn lemma_dec_injective(a: nat, b: nat)
    requires
        dec_u64(a) == dec_u64(b),
    ensures
        a == b,
{
    lemma_dec_val(a);
    lemma_dec_val(b);
}

/// The value written by a proper prefix of a decimal notation never exceeds
/// the number itself.
pub proof fn lemma_dec_prefix_le(n: nat, k: int)
    requires
        0 <= k <= dec_u64(n).len(),
    ensures
        dec_val(dec_u64(n).take(k)) <= n,
    decreases n,
{
    if k == dec_u64(n).len() {
        assert(dec_u64(n).take(k) =~= dec_u64(n));
        lemma_dec_val(n);
    } else {
        if n < 10 {
            assert(k == 0);
            assert(dec_u64(n).take(0) =~= Seq::<u8>::empty());
        } else {
            let head = dec_u64((n / 10) as nat);
            assert(dec_u64(n) == head.push((0x30 + n % 10) as u8));
            assert(k <= head.len());
            assert(dec_u64(n).take(k) =~= head.take(k));
            lemma_dec_prefix_le((n / 10) as nat, k);
            assert(dec_val(head.take(k)) <= n / 10);
            assert(n / 10 <= n);
        }
    }
}

/// There is a decimal notation of some number at position `i` of `b`,
/// ending at `j`: the bytes between are that notation and the run of
/// digits stops at `j`.
pub open spec fn parses_dec_at(b: Seq<u8>, i: int, n: nat, j: int) -> bool {
    &&& 0 <= i < j <= b.len()
    &&& b.subrange(i, j) == dec_u64(n)
    &&& (j == b.len() || !is_digit(b[j]))
}

/// A digit run has one end, so one position carries one notation at most.
pub proof fn lemma_parses_dec_unique(b: Seq<u8>, i: int, n1: nat, j1: int, n2: nat, j2: int)
    requires
        parses_dec_at(b, i, n1, j1),
        parses_dec_at(b, i, n2, j2),
    ensures
        n1 == n2,
        j1 == j2,
{
    lemma_dec_shape(n1);
    lemma_dec_shape(n2);
    if j1 < j2 {
        assert(is_digit(b.subrange(i, j2)[j1 - i]));
        assert(b[j1] == b.subrange(i, j2)[j1 - i]);
        assert(false);
    }
    if j2 < j1 {
        assert(is_digit(b.subrange(i, j1)[j2 - i]));
        assert(b[j2] == b.subrange(i, j1)[j2 - i]);
        assert(false);
    }
    assert(dec_u64(n1) == dec_u64(n2));
    lemma_dec_injective(n1, n2);
}

/// The canonical decimal notation of `n`, as bytes.
pub fn enc_u64(n: u64) -> (r: Vec<u8>)
    ensures
        r@ == dec_u64(n as nat),
    decreases n,
{
    if n < 10 {
        let mut v: Vec<u8> = Vec::new();
        v.push((0x30 + n) as u8);
        proof {
            assert(v@ =~= dec_u64(n as nat));
        }
        v
    } else {
        let mut v = enc_u64(n / 10);
        v.push((0x30 + n % 10) as u8);
        proof {
            assert(v@ =~= dec_u64(n as nat));
        }
        v
    }
}

/// Reads the decimal notation of a number at position `i`: one or more
/// digits, no leading zero, value within `u64`. Returns the number and the
/// position after its last digit, or nothing where no such notation stands
/// at `i`.
pub fn parse_u64_at(b: &[u8], i: usize) -> (r: Option<(u64, usize)>)
    ensures
        r matches Some(v) ==> parses_dec_at(b@, i as int, v.0 as nat, v.1 as int),
        r is None ==> (forall|n: u64, j: int| !parses_dec_at(b@, i as int, n as nat, j)),
        forall|n: u64, j: int|
            parses_dec_at(b@, i as int, n as nat, j) ==> (r matches Some(v) && v.0 == n && v.1
                == j),
{
    let blen = b.len();
    if i >= blen || !(0x30 <= b[i] && b[i] <= 0x39) {
        proof {
            assert forall|n: u64, j: int| !parses_dec_at(b@, i as int, n as nat, j) by {
                if parses_dec_at(b@, i as int, n as nat, j) {
                    lemma_dec_shape(n as nat);
                    assert(b@[i as int] == dec_u64(n as nat)[0]);
                }
            }
        }
        return None;
    }
    let d0 = b[i] - 0x30;
    if d0 == 0 {
        if i + 1 < blen && 0x30 <= b[i + 1] && b[i + 1] <= 0x39 {
            proof {
                assert forall|n: u64, j: int| !parses_dec_at(b@, i as int, n as nat, j) by {
                    if parses_dec_at(b@, i as int, n as nat, j) {
                        lemma_dec_shape(n as nat);
                        assert(b@[i as int] == dec_u64(n as nat)[0]);
                        assert(n == 0);
                        assert(dec_u64(0) =~= seq![0x30u8]);
                        assert(j == i + 1);
                    }
                }
            }
            return None;
        }
        proof {
            assert(b@.subrange(i as int, i + 1) =~= dec_u64(0));
            assert forall|n: u64, j: int|
                parses_dec_at(b@, i as int, n as nat, j) implies n == 0 && j == i + 1 by {
                lemma_parses_dec_unique(b@, i as int, n as nat, j, 0, i + 1);
            }
        }
        return Some((0, i + 1));
    }
    let mut acc: u64 = d0 as u64;
    let mut j: usize = i + 1;
    proof {
        assert(b@.subrange(i as int, j as int) =~= dec_u64(acc as nat));
    }
    loop
        invariant
            i < j <= blen,
            blen == b@.len(),
            acc >= 1,
            b@.subrange(i as int, j as int) == dec_u64(acc as nat),
        decreases blen - j,
    {
        if j >= blen || !(0x30 <= b[j] && b[j] <= 0x39) {
            proof {
                assert forall|n: u64, jn: int|
                    parses_dec_at(b@, i as int, n as nat, jn) implies n == acc && jn
                    == j by {
                    lemma_parses_dec_unique(b@, i as int, n as nat, jn, acc as nat, j as int);
                }
            }
            return Some((acc, j));
        }
        let d = b[j] - 0x30;
        proof {
            lemma_dec_shape(acc as nat);
        }
        if acc > (u64::MAX - d as u64) / 10 {
            proof {
                assert forall|n: u64, jn: int| !parses_dec_at(b@, i as int, n as nat, jn) by {
                    if parses_dec_at(b@, i as int, n as nat, jn) {
                        lemma_dec_shape(n as nat);
                        // the digit at j lies inside the run that ends at jn
                        if jn <= j {
                            assert(is_digit(b@.subrange(i as int, j as int)[jn - i]));
                            assert(b@[jn] == b@.subrange(i as int, j as int)[jn - i]);
                            assert(false);
                        }
                        assert(b@.subrange(i as int, j as int) =~= dec_u64(n as nat).take(
                            j - i,
                        ));
                        lemma_dec_prefix_le(n as nat, j - i);
                        lemma_dec_val(acc as nat);
                        assert(dec_val(dec_u64(acc as nat)) == acc as nat);
                        assert(acc as nat <= n as nat);
                        // one more digit still fits under n
                        assert(b@.subrange(i as int, j + 1) =~= dec_u64(n as nat).take(
                            j + 1 - i,
                        ));
                        lemma_dec_prefix_le(n as nat, j + 1 - i);
                        let ext = dec_u64(n as nat).take(j + 1 - i);
                        assert(ext.drop_last() =~= dec_u64(n as nat).take(j - i));
                        assert(ext.last() == b@[j as int]);
                        assert(dec_val(ext) == acc as nat * 10 + d);
                        assert(acc as nat * 10 + d <= n as nat);
                        assert(acc > (u64::MAX - d as u64) / 10);
                        assert(acc as nat * 10 + d > u64::MAX) by (nonlinear_arith)
                            requires
                                acc > (u64::MAX - d as u64) / 10,
                                d < 10,
                                acc >= 1,
                        ;
                        assert(false);
                    }
                }
            }
            return None;
        }
        let ghost old_acc = acc;
        acc = acc * 10 + d as u64;
        j = j + 1;
        proof {
            assert(acc as nat >= 10);
            assert(acc as nat / 10 == old_acc as nat && acc as nat % 10 == d as nat)
                by (nonlinear_arith)
                requires
                    acc as nat == old_acc as nat * 10 + d as nat,
                    d < 10,
            ;
            assert(dec_u64(acc as nat) == dec_u64(old_acc as nat).push((0x30 + acc as nat % 10) as u8));
            assert((0x30 + acc as nat % 10) as u8 == b@[j - 1]);
            assert(b@.subrange(i as int, j as int) =~= b@.subrange(i as int, j - 1).push(
                b@[j - 1],
            ));
        }
    }
}

/// A JSON string: a quote, the text, a quote. Valid only for JSON-safe
/// text, which needs no escapes.
pub open spec fn qstr(t: Seq<char>) -> Seq<u8> {
    seq![0x22u8] + ascii_bytes(t) + seq![0x22u8]
}

/// A JSON string with JSON-safe content stands at position `i` of `b` and
/// ends at `j`.
pub open spec fn parses_qstr_at(b: Seq<u8>, i: int, t: Seq<char>, j: int) -> bool {
    &&& json_safe(t)
    &&& 0 <= i
    &&& j == i + 2 + t.len()
    &&& j <= b.len()
    &&& b.subrange(i, j) == qstr(t)
}

/// Appends the JSON string notation of `s` to `out`.
pub fn push_qstr(out: &mut Vec<u8>, s: &String)
    requires
        json_safe(s@),
    ensures
        final(out)@ == old(out)@ + qstr(s@),
{
    proof {
        lemma_json_safe_ascii(s@);
        lemma_ascii_encode_utf8(s@);
    }
    out.push(0x22);
    out.extend_from_slice(s.as_str().as_bytes());
    out.push(0x22);
    proof {
        assert(out@ =~= old(out)@ + qstr(s@));
    }
}

/// Reads a JSON string at position `i`: a quote, JSON-safe bytes, a quote.
/// Returns the text and the position after the closing quote.
pub fn parse_qstr_at(b: &[u8], i: usize) -> (r: Option<(String, usize)>)
    ensures
        r matches Some(v) ==> parses_qstr_at(b@, i as int, v.0@, v.1 as int),
        r is None ==> (forall|t: Seq<char>, j: int| !parses_qstr_at(b@, i as int, t, j)),
        forall|t: Seq<char>, j: int|
            parses_qstr_at(b@, i as int, t, j) ==> (r matches Some(v) && v.0@ == t && v.1 == j),
{
    let blen = b.len();
    if i >= blen || b[i] != 0x22 {
        proof {
            assert forall|t: Seq<char>, j: int| !parses_qstr_at(b@, i as int, t, j) by {
                if parses_qstr_at(b@, i as int, t, j) {
                    assert(b@[i as int] == qstr(t)[0]);
                }
            }
        }
        return None;
    }
    let mut j: usize = i + 1;
    while j < blen && 0x20 <= b[j] && b[j] < 0x7f && b[j] != 0x22 && b[j] != 0x5c
        invariant
            i < j <= blen,
            blen == b@.len(),
            forall|k: int| i < k < j ==> json_safe_byte(#[trigger] b@[k]),
        decreases blen - j,
    {
        j = j + 1;
    }
    proof {
        assert(j == blen || !json_safe_byte(b@[j as int]));
    }
    if j >= blen || b[j] != 0x22 {
        proof {
            assert forall|t: Seq<char>, j2: int| !parses_qstr_at(b@, i as int, t, j2) by {
                if parses_qstr_at(b@, i as int, t, j2) {
                    lemma_json_safe_ascii(t);
                    let e = i + 1 + t.len();
                    // every content byte is safe, and the closing quote is not
                    assert forall|k: int| i < k < e implies json_safe_byte(#[trigger] b@[k]) by {
                        assert(b@[k] == qstr(t)[k - i]);
                        assert(qstr(t)[k - i] == ascii_bytes(t)[k - i - 1]);
                    }
                    assert(b@[e] == qstr(t)[e - i]);
                    assert(b@[e] == 0x22);
                    if j < e {
                        assert(json_safe_byte(b@[j as int]));
                        assert(false);
                    }
                    if j > e {
                        assert(json_safe_byte(b@[e]));
                        assert(false);
                    }
                    assert(false);
                }
            }
        }
        return None;
    }
    let content = sub_vec(b, i + 1, j);
    proof {
        assert(forall|k: int|
            0 <= k < content@.len() ==> json_safe_byte(#[trigger] content@[k]));
        lemma_json_safe_of_bytes(content@);
        assert(forall|k: int| 0 <= k < content@.len() ==> (#[trigger] content@[k]) < 0x80);
        lemma_ascii_bytes_of_chars(content@);
    }
    let s = ascii_to_string(content);
    proof {
        assert(ascii_bytes(s@) == b@.subrange(i + 1, j as int));
        assert(b@.subrange(i as int, j + 1) =~= qstr(s@));
        assert forall|t: Seq<char>, j2: int|
            parses_qstr_at(b@, i as int, t, j2) implies t == s@ && j2 == j + 1 by {
            lemma_parses_qstr_unique(b@, i as int, t, j2, s@, j + 1);
        }
    }
    Some((s, j + 1))
}

/// One position carries one JSON string at most.
pub proof fn lemma_parses_qstr_unique(
    b: Seq<u8>,
    i: int,
    t1: Seq<char>,
    j1: int,
    t2: Seq<char>,
    j2: int,
)
    requires
        parses_qstr_at(b, i, t1, j1),
        parses_qstr_at(b, i, t2, j2),
    ensures
        t1 == t2,
        j1 == j2,
{
    lemma_json_safe_ascii(t1);
    lemma_json_safe_ascii(t2);
    if t1.len() < t2.len() {
        // the closing quote of the shorter sits inside the content of the longer
        let e = i + 1 + t1.len();
        assert(b[e] == qstr(t1)[e - i]);
        assert(b[e] == 0x22);
        assert(b[e] == qstr(t2)[e - i]);
        assert(qstr(t2)[e - i] == ascii_bytes(t2)[e - i - 1]);
        assert(json_safe_byte(ascii_bytes(t2)[e - i - 1]));
        assert(false);
    }
    if t2.len() < t1.len() {
        let e = i + 1 + t2.len();
        assert(b[e] == qstr(t2)[e - i]);
        assert(b[e] == 0x22);
        assert(b[e] == qstr(t1)[e - i]);
        assert(qstr(t1)[e - i] == ascii_bytes(t1)[e - i - 1]);
        assert(json_safe_byte(ascii_bytes(t1)[e - i - 1]));
        assert(false);
    }
    assert forall|k: int| 0 <= k < t1.len() implies ascii_bytes(t1)[k] == ascii_bytes(t2)[k] by {
        assert(qstr(t1)[k + 1] == b.subrange(i, j1)[k + 1]);
        assert(qstr(t2)[k + 1] == b.subrange(i, j2)[k + 1]);
    }
    assert(ascii_bytes(t1) =~= ascii_bytes(t2));
    lemma_ascii_chars_of_bytes(t1);
    lemma_ascii_chars_of_bytes(t2);
    assert(t1 == ascii_chars(ascii_bytes(t1)));
}

/// A byte range equal to a concatenation splits into ranges equal to the
/// two parts.
pub proof fn lemma_split_two(b: Seq<u8>, i: int, j: int, x: Seq<u8>, y: Seq<u8>)
    requires
        0 <= i <= j <= b.len(),
        b.subrange(i, j) == x + y,
    ensures
        i + x.len() <= j,
        b.subrange(i, i + x.len()) == x,
        b.subrange(i + x.len(), j) == y,
{
    assert(b.subrange(i, j).len() == j - i);
    assert((x + y).len() == x.len() + y.len());
    assert(j - i == x.len() + y.len());
    assert forall|m: int| 0 <= m < x.len() implies b.subrange(i, i + x.len())[m] == x[m] by {
        assert(b.subrange(i, j)[m] == (x + y)[m]);
        assert(b[i + m] == b.subrange(i, j)[m]);
    }
    assert(b.subrange(i, i + x.len() as int) =~= x);
    assert forall|m: int| 0 <= m < y.len() implies b.subrange(i + x.len(), j)[m] == y[m] by {
        assert(b.subrange(i, j)[x.len() + m] == (x + y)[x.len() + m]);
        assert(b[i + x.len() + m] == b.subrange(i, j)[x.len() + m]);
    }
    assert(b.subrange(i + x.len() as int, j) =~= y);
}

/// Appends the bytes of the ASCII text `lit` to `out`.
pub fn push_lit(out: &mut Vec<u8>, lit: &str)
    requires
        ascii_seq(lit@),
    ensures
        final(out)@ == old(out)@ + ascii_bytes(lit@),
{
    proof {
        lemma_ascii_encode_utf8(lit@);
    }
    out.extend_from_slice(lit.as_bytes());
}

/// Matches the ASCII text `lit` at position `i` of `b`. Returns the
/// position after the match, or nothing where the bytes differ.
pub fn eat_lit(b: &[u8], i: usize, lit: &str) -> (r: Option<usize>)
    requires
        ascii_seq(lit@),
    ensures
        r matches Some(j) ==> i + lit@.len() == j <= b@.len() && b@.subrange(i as int, j as int)
            == ascii_bytes(lit@),
        r is None ==> !(i + lit@.len() <= b@.len() && b@.subrange(
            i as int,
            i + lit@.len(),
        ) == ascii_bytes(lit@)),
{
    proof {
        lemma_ascii_encode_utf8(lit@);
    }
    let lb = lit.as_bytes();
    let n = lb.len();
    let blen = b.len();
    if n > blen || i > blen - n {
        return None;
    }
    let mut k: usize = 0;
    while k < n
        invariant
            0 <= k <= n,
            n == lb@.len(),
            blen == b@.len(),
            i + n <= blen,
            lb@ == ascii_bytes(lit@),
            forall|m: int| 0 <= m < k ==> b@[i + m] == lb@[m],
        decreases n - k,
    {
        if b[i + k] != lb[k] {
            proof {
                let ka = k as int;
                assert(b@.subrange(i as int, i + lit@.len())[ka] != ascii_bytes(lit@)[ka]);
            }
            return None;
        }
        k = k + 1;
    }
    proof {
        assert(b@.subrange(i as int, i + lit@.len()) =~= ascii_bytes(lit@));
    }
    Some(i + n)
}

/// The texts of a sequence of strings.
pub open spec fn views_of(ss: Seq<String>) -> Seq<Seq<char>> {
    ss.map_values(|s: String| s@)
}

/// True where every text of the sequence is JSON-safe.
pub open spec fn strs_json_safe(ts: Seq<Seq<char>>) -> bool {
    forall|i: int| 0 <= i < ts.len() ==> json_safe(#[trigger] ts[i])
}

/// The comma-separated JSON string notations of the texts.
pub open spec fn arr_items(ts: Seq<Seq<char>>) -> Seq<u8>
    decreases ts.len(),
{
    if ts.len() == 0 {
        Seq::<u8>::empty()
    } else if ts.len() == 1 {
        qstr(ts[0])
    } else {
        arr_items(ts.drop_last()) + seq![0x2cu8] + qstr(ts.last())
    }
}

/// A JSON array of strings.
pub open spec fn arr_json(ts: Seq<Seq<char>>) -> Seq<u8> {
    seq![0x5bu8] + arr_items(ts) + seq![0x5du8]
}

/// A JSON array of JSON-safe strings stands at position `i` of `b` and
/// ends at `j`.
pub open spec fn parses_arr_at(b: Seq<u8>, i: int, ts: Seq<Seq<char>>, j: int) -> bool {
    &&& strs_json_safe(ts)
    &&& 0 <= i < j <= b.len()
    &&& b.subrange(i, j) == arr_json(ts)
}

/// Where the notation of element `k` begins, counted from the start of the
/// item list.
pub open spec fn elem_off(ts: Seq<Seq<char>>, k: int) -> int {
    if k == 0 {
        0
    } else {
        arr_items(ts.take(k)).len() as int + 1
    }
}

/// Extending a take by one element appends one item notation.
pub proof fn lemma_arr_items_step(ts: Seq<Seq<char>>, k: int)
    requires
        0 <= k < ts.len(),
    ensures
        k == 0 ==> arr_items(ts.take(1)) == qstr(ts[0]),
        k >= 1 ==> arr_items(ts.take(k + 1)) == arr_items(ts.take(k)) + seq![0x2cu8] + qstr(
            ts[k],
        ),
{
    let pre = ts.take(k + 1);
    assert(pre.len() == k + 1);
    if k == 0 {
        assert(arr_items(pre) == qstr(pre[0]));
        assert(pre[0] == ts[0]);
    } else {
        assert(pre.drop_last() =~= ts.take(k));
        assert(pre.last() == ts[k]);
        assert(arr_items(pre) == arr_items(pre.drop_last()) + seq![0x2cu8] + qstr(pre.last()));
    }
}

/// Where element `k` stands inside the item list, and what follows it:
/// a comma before a further element, or the end of the list.
pub proof fn lemma_arr_item_slice(ts: Seq<Seq<char>>, k: int)
    requires
        0 <= k < ts.len(),
    ensures
        0 <= elem_off(ts, k),
        elem_off(ts, k) + qstr(ts[k]).len() <= arr_items(ts).len(),
        arr_items(ts).subrange(elem_off(ts, k), elem_off(ts, k) + qstr(ts[k]).len()) == qstr(
            ts[k],
        ),
        k < ts.len() - 1 ==> arr_items(ts)[elem_off(ts, k) + qstr(ts[k]).len()] == 0x2c
            && elem_off(ts, k + 1) == elem_off(ts, k) + qstr(ts[k]).len() + 1,
        k == ts.len() - 1 ==> elem_off(ts, k) + qstr(ts[k]).len() == arr_items(ts).len(),
    decreases ts.len(),
{
    if k == ts.len() - 1 {
        if ts.len() == 1 {
            assert(arr_items(ts) == qstr(ts[0]));
            assert(arr_items(ts).subrange(0, qstr(ts[0]).len() as int) =~= qstr(ts[0]));
        } else {
            let head = ts.drop_last();
            assert(arr_items(ts) == arr_items(head) + seq![0x2cu8] + qstr(ts.last()));
            assert(ts.take(k) =~= head);
            assert(elem_off(ts, k) == arr_items(head).len() + 1);
            assert(arr_items(ts).subrange(
                arr_items(head).len() as int + 1,
                arr_items(ts).len() as int,
            ) =~= qstr(ts[k]));
        }
    } else {
        let head = ts.drop_last();
        assert(ts.len() >= 2);
        assert(arr_items(ts) == arr_items(head) + seq![0x2cu8] + qstr(ts.last()));
        assert(0 <= k < head.len());
        lemma_arr_item_slice(head, k);
        assert(ts.take(k) =~= head.take(k));
        assert(elem_off(ts, k) == elem_off(head, k));
        assert(head[k] == ts[k]);
        let off = elem_off(head, k);
        let qlen = qstr(ts[k]).len() as int;
        assert(arr_items(ts).subrange(off, off + qlen) =~= arr_items(head).subrange(
            off,
            off + qlen,
        ));
        if k < head.len() - 1 {
            assert(arr_items(ts)[off + qlen] == arr_items(head)[off + qlen]);
            assert(ts.take(k + 1) =~= head.take(k + 1));
        } else {
            // k is the last element of head: the comma after it separates it
            // from the last element of ts
            assert(off + qlen == arr_items(head).len());
            assert(arr_items(ts)[off + qlen] == 0x2c);
            assert(ts.take(k + 1) =~= head);
            assert(elem_off(ts, k + 1) == arr_items(head).len() + 1);
        }
    }
}

/// Inside a whole-array parse, element `k` stands as a JSON string at its
/// own absolute position, followed by a comma or by the closing bracket.
pub proof fn lemma_arr_elem_at(b: Seq<u8>, i: int, ts: Seq<Seq<char>>, j: int, k: int)
    requires
        parses_arr_at(b, i, ts, j),
        0 <= k < ts.len(),
    ensures
        parses_qstr_at(
            b,
            i + 1 + elem_off(ts, k),
            ts[k],
            i + 1 + elem_off(ts, k) + qstr(ts[k]).len(),
        ),
        k < ts.len() - 1 ==> b[i + 1 + elem_off(ts, k) + qstr(ts[k]).len()] == 0x2c && i + 1
            + elem_off(ts, k + 1) == i + 2 + elem_off(ts, k) + qstr(ts[k]).len() && i + 1
            + elem_off(ts, k) + qstr(ts[k]).len() < j - 1,
        k == ts.len() - 1 ==> i + 1 + elem_off(ts, k) + qstr(ts[k]).len() == j - 1 && b[j - 1]
            == 0x5d,
        j - 1 < b.len(),
{
    lemma_arr_item_slice(ts, k);
    assert(b.subrange(i, j) == arr_json(ts));
    assert(arr_json(ts).len() == arr_items(ts).len() + 2);
    assert(j - i == arr_json(ts).len());
    let off = i + 1 + elem_off(ts, k);
    let qlen = qstr(ts[k]).len() as int;
    assert forall|m: int| 0 <= m < qlen implies b[off + m] == qstr(ts[k])[m] by {
        assert(arr_items(ts)[elem_off(ts, k) + m] == arr_items(ts).subrange(
            elem_off(ts, k),
            elem_off(ts, k) + qlen,
        )[m]);
        assert(arr_json(ts)[1 + elem_off(ts, k) + m] == arr_items(ts)[elem_off(ts, k) + m]);
        assert(b.subrange(i, j)[1 + elem_off(ts, k) + m] == arr_json(ts)[1 + elem_off(ts, k)
            + m]);
        assert(b[off + m] == b.subrange(i, j)[1 + elem_off(ts, k) + m]);
    }
    assert(b.subrange(off, off + qlen) =~= qstr(ts[k]));
    assert(parses_qstr_at(b, off, ts[k], off + qlen));
    if k < ts.len() - 1 {
        lemma_arr_item_slice(ts, k + 1);
        assert(elem_off(ts, k + 1) + qstr(ts[k + 1]).len() <= arr_items(ts).len());
        assert(elem_off(ts, k) + qlen < arr_items(ts).len());
        assert(arr_json(ts)[1 + elem_off(ts, k) + qlen] == arr_items(ts)[elem_off(ts, k)
            + qlen]);
        assert(b[off + qlen] == b.subrange(i, j)[1 + elem_off(ts, k) + qlen]);
    } else {
        assert(elem_off(ts, k) + qlen == arr_items(ts).len());
        assert(arr_json(ts)[arr_json(ts).len() - 1] == 0x5d);
        assert(b[j - 1] == b.subrange(i, j)[j - 1 - i]);
    }
}

/// Appends the JSON array notation of `ss` to `out`.
pub fn push_str_arr(out: &mut Vec<u8>, ss: &Vec<String>)
    requires
        strs_json_safe(views_of(ss@)),
    ensures
        final(out)@ == old(out)@ + arr_json(views_of(ss@)),
{
    let ghost ts = views_of(ss@);
    out.push(0x5b);
    let mut idx: usize = 0;
    while idx < ss.len()
        invariant
            0 <= idx <= ss.len(),
            ts == views_of(ss@),
            strs_json_safe(ts),
            out@ == old(out)@ + seq![0x5bu8] + arr_items(ts.take(idx as int)),
        decreases ss.len() - idx,
    {
        if idx > 0 {
            out.push(0x2c);
        }
        proof {
            assert(views_of(ss@)[idx as int] == ss@[idx as int]@);
        }
        push_qstr(out, &ss[idx]);
        proof {
            lemma_arr_items_step(ts, idx as int);
            assert(ts[idx as int] == ss@[idx as int]@);
            assert(out@ =~= old(out)@ + seq![0x5bu8] + arr_items(ts.take(idx + 1)));
        }
        idx = idx + 1;
    }
    proof {
        assert(ts.take(ss@.len() as int) =~= ts);
    }
    out.push(0x5d);
    proof {
        assert(out@ =~= old(out)@ + arr_json(ts));
    }
}

/// Reads a JSON array of JSON-safe strings at position `i`. Returns the
/// texts and the position after the closing bracket.
pub fn parse_str_arr_at(b: &[u8], i: usize) -> (r: Option<(Vec<String>, usize)>)
    ensures
        r matches Some(v) ==> parses_arr_at(b@, i as int, views_of(v.0@), v.1 as int),
        r is None ==> (forall|ts: Seq<Seq<char>>, j: int| !parses_arr_at(b@, i as int, ts, j)),
        forall|ts: Seq<Seq<char>>, j: int|
            parses_arr_at(b@, i as int, ts, j) ==> (r matches Some(v) && views_of(v.0@) == ts
                && v.1 == j),
{
    let blen = b.len();
    if i >= blen || b[i] != 0x5b {
        proof {
            assert forall|ts: Seq<Seq<char>>, j: int| !parses_arr_at(b@, i as int, ts, j) by {
                if parses_arr_at(b@, i as int, ts, j) {
                    assert(b@[i as int] == arr_json(ts)[0]);
                }
            }
        }
        return None;
    }
    if i + 1 < blen && b[i + 1] == 0x5d {
        let out: Vec<String> = Vec::new();
        proof {
            assert(views_of(out@) =~= Seq::<Seq<char>>::empty());
            assert(arr_items(views_of(out@)) =~= Seq::<u8>::empty());
            assert(b@.subrange(i as int, i + 2) =~= arr_json(views_of(out@)));
            assert forall|ts: Seq<Seq<char>>, j: int|
                parses_arr_at(b@, i as int, ts, j) implies ts == views_of(out@) && j == i
                + 2 by {
                if ts.len() >= 1 {
                    lemma_arr_elem_at(b@, i as int, ts, j, 0);
                    assert(b@[i + 1] == qstr(ts[0])[0]);
                    assert(false);
                }
                assert(ts =~= views_of(out@));
                assert(arr_items(ts) == Seq::<u8>::empty());
                assert(arr_json(ts).len() == 2);
                assert(b@.subrange(i as int, j).len() == j - i);
            }
        }
        return Some((out, i + 2));
    }
    // not an empty array: any parse here has at least one element
    proof {
        assert forall|ts: Seq<Seq<char>>, j: int|
            parses_arr_at(b@, i as int, ts, j) implies ts.len() >= 1 by {
            if ts.len() == 0 {
                assert(arr_items(ts) == Seq::<u8>::empty());
                assert(arr_json(ts).len() == 2);
                assert(b@.subrange(i as int, j).len() == j - i);
                assert(j == i + 2);
                assert(b@[i + 1] == b@.subrange(i as int, j)[1]);
                assert(b@.subrange(i as int, j)[1] == arr_json(ts)[1]);
            }
        }
    }
    let mut out: Vec<String> = Vec::new();
    let mut pos: usize = i + 1;
    loop
        invariant
            i < pos <= blen,
            blen == b@.len(),
            b@[i as int] == 0x5b,
            strs_json_safe(views_of(out@)),
            out@.len() == 0 ==> pos == i + 1,
            out@.len() >= 1 ==> b@.subrange(i + 1, pos as int) == arr_items(views_of(out@))
                + seq![0x2cu8],
            forall|ts: Seq<Seq<char>>, j: int|
                parses_arr_at(b@, i as int, ts, j) ==> ts.len() > out@.len() && ts.take(
                    out@.len() as int,
                ) == views_of(out@) && pos == i + 1 + elem_off(ts, out@.len() as int),
        decreases blen - pos,
    {
        let ghost k = out@.len() as int;
        let parsed = parse_qstr_at(b, pos);
        proof {
            if parsed is None {
                assert forall|ts: Seq<Seq<char>>, j: int|
                    !parses_arr_at(b@, i as int, ts, j) by {
                    if parses_arr_at(b@, i as int, ts, j) {
                        lemma_arr_elem_at(b@, i as int, ts, j, k);
                        assert(false);
                    }
                }
            }
        }
        let (s, p2) = match parsed {
            Some(v) => v,
            None => {
                return None;
            },
        };
        let ghost old_out = out@;
        out.push(s);
        proof {
            assert(views_of(out@) =~= views_of(old_out).push(s@));
            assert(strs_json_safe(views_of(out@)));
            // relate any whole-array parse to what was just read
            assert forall|ts: Seq<Seq<char>>, j: int|
                parses_arr_at(b@, i as int, ts, j) implies ts.take(k + 1) == views_of(out@)
                && p2 == i + 1 + elem_off(ts, k) + qstr(ts[k]).len() by {
                lemma_arr_elem_at(b@, i as int, ts, j, k);
                let off = i + 1 + elem_off(ts, k);
                let qlen = qstr(ts[k]).len() as int;
                lemma_parses_qstr_unique(b@, off, s@, p2 as int, ts[k], off + qlen);
                assert(ts.take(k + 1) =~= ts.take(k).push(ts[k]));
                assert(views_of(out@) =~= views_of(old_out).push(s@));
            }
        }
        if p2 < blen && b[p2] == 0x2c {
            pos = p2 + 1;
            proof {
                if k == 0 {
                    assert(b@.subrange(i + 1, pos as int) =~= qstr(s@) + seq![0x2cu8]);
                    assert(arr_items(views_of(out@)) == qstr(views_of(out@)[0]));
                } else {
                    lemma_arr_items_step(views_of(out@), k);
                    assert(views_of(out@).take(k) =~= views_of(old_out));
                    assert(views_of(out@).take(k + 1) =~= views_of(out@));
                    assert(b@.subrange(i + 1, pos as int) =~= (arr_items(views_of(old_out))
                        + seq![0x2cu8]) + qstr(s@) + seq![0x2cu8]);
                    assert(arr_items(views_of(out@)) =~= arr_items(views_of(old_out)) + seq![
                        0x2cu8,
                    ] + qstr(s@));
                }
                assert(b@.subrange(i + 1, pos as int) =~= arr_items(views_of(out@)) + seq![
                    0x2cu8,
                ]);
                // a parse cannot end here: the byte after element k is a comma
                assert forall|ts: Seq<Seq<char>>, j: int|
                    parses_arr_at(b@, i as int, ts, j) implies ts.len() > k + 1 && pos == i
                    + 1 + elem_off(ts, k + 1) by {
                    lemma_arr_elem_at(b@, i as int, ts, j, k);
                    let after = i + 1 + elem_off(ts, k) + qstr(ts[k]).len();
                    assert(after == p2);
                    if ts.len() == k + 1 {
                        assert(b@[after] == 0x5d);
                        assert(false);
                    }
                }
            }
        } else if p2 < blen && b[p2] == 0x5d {
            proof {
                if k == 0 {
                    assert(b@.subrange(i + 1, p2 as int) =~= qstr(s@));
                    assert(arr_items(views_of(out@)) == qstr(views_of(out@)[0]));
                } else {
                    lemma_arr_items_step(views_of(out@), k);
                    assert(views_of(out@).take(k) =~= views_of(old_out));
                    assert(views_of(out@).take(k + 1) =~= views_of(out@));
                    assert(b@.subrange(i + 1, p2 as int) =~= (arr_items(views_of(old_out))
                        + seq![0x2cu8]) + qstr(s@));
                    assert(arr_items(views_of(out@)) =~= arr_items(views_of(old_out)) + seq![
                        0x2cu8,
                    ] + qstr(s@));
                }
                assert(b@.subrange(i + 1, p2 as int) =~= arr_items(views_of(out@)));
                assert(b@.subrange(i as int, p2 + 1) =~= arr_json(views_of(out@)));
                assert forall|ts: Seq<Seq<char>>, j: int|
                    parses_arr_at(b@, i as int, ts, j) implies ts == views_of(out@) && j == p2
                    + 1 by {
                    lemma_arr_elem_at(b@, i as int, ts, j, k);
                    let after = i + 1 + elem_off(ts, k) + qstr(ts[k]).len();
                    assert(after == p2);
                    if ts.len() > k + 1 {
                        assert(b@[after] == 0x2c);
                        assert(false);
                    }
                    assert(ts.take(k + 1) =~= ts);
                }
            }
            return Some((out, p2 + 1));
        } else {
            proof {
                assert forall|ts: Seq<Seq<char>>, j: int|
                    !parses_arr_at(b@, i as int, ts, j) by {
                    if parses_arr_at(b@, i as int, ts, j) {
                        lemma_arr_elem_at(b@, i as int, ts, j, k);
                        let after = i + 1 + elem_off(ts, k) + qstr(ts[k]).len();
                        assert(after == p2);
                        if ts.len() == k + 1 {
                            assert(b@[after] == 0x5d);
                            assert(after < j <= blen);
                            assert(false);
                        } else {
                            assert(after < j - 1);
                            assert(b@[after] == 0x2c);
                            assert(false);
                        }
                    }
                }
            }
            return None;
        }
    }
}

} // verus!
