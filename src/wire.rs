//! Decimal numbers and comma-separated lists of them, as they appear in the
//! textual encoding of a frame.
use vstd::prelude::*;

verus! {

pub open spec fn is_digit(c: u8) -> bool {
    48 <= c <= 57
}

/// The shortest decimal digits of `n`.
pub open spec fn dec(n: nat) -> Seq<u8>
    decreases n,
{
    if n < 10 {
        seq![(48 + n) as u8]
    } else {
        dec(n / 10).push((48 + n % 10) as u8)
    }
}

/// The number that a run of decimal digits denotes.
pub open spec fn digits_value(s: Seq<u8>) -> nat
    decreases s.len(),
{
    if s.len() == 0 {
        0
    } else {
        digits_value(s.drop_last()) * 10 + (s.last() - 48) as nat
    }
}

/// `", d"` for each number, one after the other.
pub open spec fn tail_bytes(s: Seq<u8>) -> Seq<u8>
    decreases s.len(),
{
    if s.len() == 0 {
        Seq::empty()
    } else {
        seq![44u8] + dec(s[0] as nat) + tail_bytes(s.skip(1))
    }
}

/// The numbers of `s` in decimal, separated by commas.
pub open spec fn list_bytes(s: Seq<u8>) -> Seq<u8> {
    if s.len() == 0 {
        Seq::empty()
    } else {
        dec(s[0] as nat) + tail_bytes(s.skip(1))
    }
}

pub proof fn lemma_dec_digits(n: nat)
    ensures
        dec(n).len() >= 1,
        forall|i: int| 0 <= i < dec(n).len() ==> is_digit(#[trigger] dec(n)[i]),
        digits_value(dec(n)) == n,
        n > 0 ==> dec(n)[0] != 48,
        n == 0 ==> dec(n) == seq![48u8],
    decreases n,
{
    if n >= 10 {
        lemma_dec_digits(n / 10);
        let d = dec(n / 10);
        assert(dec(n).drop_last() =~= d);
        assert(dec(n)[0] == d[0]);
        assert(dec(n).last() == (48 + n % 10) as u8);
        assert((dec(n).last() - 48) as nat == n % 10);
        assert(digits_value(dec(n)) == (n / 10) * 10 + n % 10);
    } else {
        assert(dec(n).drop_last() =~= Seq::<u8>::empty());
        assert(digits_value(Seq::<u8>::empty()) == 0);
        assert(dec(n).last() == (48 + n) as u8);
    }
}

pub proof fn lemma_value_monotone(s: Seq<u8>, k: int)
    requires
        0 <= k <= s.len(),
        forall|i: int| 0 <= i < s.len() ==> is_digit(#[trigger] s[i]),
    ensures
        digits_value(s.subrange(0, k)) <= digits_value(s),
    decreases s.len() - k,
{
    if k < s.len() {
        lemma_value_monotone(s, k + 1);
        let t = s.subrange(0, k + 1);
        assert(t.drop_last() =~= s.subrange(0, k));
        assert(digits_value(t) == digits_value(s.subrange(0, k)) * 10 + (t.last() - 48) as nat);
        assert(digits_value(t) >= digits_value(s.subrange(0, k))) by (nonlinear_arith)
            requires
                digits_value(t) == digits_value(s.subrange(0, k)) * 10 + (t.last() - 48) as nat,
        ;
    } else {
        assert(s.subrange(0, k) =~= s);
    }
}

pub proof fn lemma_value_positive(s: Seq<u8>)
    requires
        s.len() >= 1,
        s[0] != 48,
        forall|i: int| 0 <= i < s.len() ==> is_digit(#[trigger] s[i]),
    ensures
        digits_value(s) >= 1,
        s.len() >= 2 ==> digits_value(s) >= 10,
    decreases s.len(),
{
    if s.len() >= 2 {
        let t = s.drop_last();
        assert(t[0] == s[0]);
        lemma_value_positive(t);
    }
}

/// Digits without a leading zero are the decimal form of their value.
pub proof fn lemma_dec_of_value(s: Seq<u8>)
    requires
        s.len() >= 1,
        s.len() >= 2 ==> s[0] != 48,
        forall|i: int| 0 <= i < s.len() ==> is_digit(#[trigger] s[i]),
    ensures
        dec(digits_value(s)) == s,
    decreases s.len(),
{
    let v = digits_value(s);
    if s.len() == 1 {
        assert(s.drop_last() =~= Seq::<u8>::empty());
        assert(digits_value(Seq::<u8>::empty()) == 0);
        assert(v == (s[0] - 48) as nat);
        assert(dec(v) =~= s);
    } else {
        let t = s.drop_last();
        assert(t[0] == s[0]);
        lemma_value_positive(s);
        lemma_dec_of_value(t);
        assert(v / 10 == digits_value(t));
        assert(v % 10 == (s.last() - 48) as nat);
        assert(dec(v) =~= t.push(s.last()));
        assert(t.push(s.last()) =~= s);
    }
}

pub proof fn lemma_dec_injective(a: nat, b: nat)
    requires
        dec(a) == dec(b),
    ensures
        a == b,
{
    lemma_dec_digits(a);
    lemma_dec_digits(b);
}

pub proof fn lemma_tail_push(s: Seq<u8>, x: u8)
    ensures
        tail_bytes(s.push(x)) == tail_bytes(s) + seq![44u8] + dec(x as nat),
    decreases s.len(),
{
    if s.len() == 0 {
        assert(s.push(x).skip(1) =~= Seq::<u8>::empty());
        assert(s.push(x)[0] == x);
        assert(tail_bytes(s.push(x).skip(1)) =~= Seq::<u8>::empty());
        assert(tail_bytes(s) =~= Seq::<u8>::empty());
        assert(tail_bytes(s.push(x)) =~= seq![44u8] + dec(x as nat));
    } else {
        assert(s.push(x).skip(1) =~= s.skip(1).push(x));
        lemma_tail_push(s.skip(1), x);
        assert(tail_bytes(s.push(x)) =~= tail_bytes(s) + seq![44u8] + dec(x as nat));
    }
}

/// Appends the decimal digits of `n` to `out`.
pub fn write_dec(out: &mut Vec<u8>, n: u64)
    ensures
        final(out)@ == old(out)@ + dec(n as nat),
    decreases n,
{
    if n >= 10 {
        write_dec(out, n / 10);
    }
    out.push((48 + n % 10) as u8);
    assert(final(out)@ =~= old(out)@ + dec(n as nat));
}

/// Reads the decimal number that starts at `pos`: the whole run of digits
/// there, without a leading zero, within `u64`.
pub fn read_dec(b: &[u8], pos: usize) -> (r: Option<(u64, usize)>)
    requires
        pos <= b@.len(),
    ensures
        match r {
            Some((v, e)) => {
                &&& pos < e <= b@.len()
                &&& b@.subrange(pos as int, e as int) == dec(v as nat)
                &&& (e == b@.len() || !is_digit(b@[e as int]))
            },
            None => forall|n: u64, e: int|
                #![trigger dec(n as nat), b@.subrange(pos as int, e)]
                pos < e <= b@.len() && (e == b@.len() || !is_digit(b@[e]))
                    ==> b@.subrange(pos as int, e) != dec(n as nat),
        },
{
    let mut i: usize = pos;
    let mut v: u64 = 0;
    let mut overflow = false;
    while i < b.len() && 48 <= b[i] && b[i] <= 57
        invariant
            pos <= i <= b@.len(),
            forall|j: int| pos <= j < i ==> is_digit(#[trigger] b@[j]),
            !overflow ==> v as nat == digits_value(b@.subrange(pos as int, i as int)),
            overflow ==> digits_value(b@.subrange(pos as int, i as int)) > u64::MAX,
        decreases b@.len() - i,
    {
        let ghost s = b@.subrange(pos as int, i as int);
        let d = (b[i] - 48) as u64;
        assert(b@.subrange(pos as int, i + 1) =~= s.push(b@[i as int]));
        assert(b@.subrange(pos as int, i + 1).drop_last() =~= s);
        if overflow {
            assert(digits_value(b@.subrange(pos as int, i + 1)) >= digits_value(s)) by (nonlinear_arith)
                requires
                    digits_value(b@.subrange(pos as int, i + 1)) == digits_value(s) * 10 + d,
            ;
        } else if v > (u64::MAX - d) / 10 {
            overflow = true;
            assert(digits_value(b@.subrange(pos as int, i + 1)) > u64::MAX) by (nonlinear_arith)
                requires
                    digits_value(b@.subrange(pos as int, i + 1)) == v * 10 + d,
                    v > (u64::MAX - d) / 10,
                    d <= 9,
            ;
        } else {
            assert(v * 10 + d <= u64::MAX) by (nonlinear_arith)
                requires
                    v <= (u64::MAX - d) / 10,
                    d <= 9,
            ;
            v = v * 10 + d;
        }
        i = i + 1;
    }
    let ghost run = b@.subrange(pos as int, i as int);
    proof {
        // Any run of digits from `pos` that ends before a non-digit is this one.
        assert forall|n: u64, e: int|
            #![trigger dec(n as nat), b@.subrange(pos as int, e)]
            pos < e <= b@.len() && (e == b@.len() || !is_digit(b@[e]))
                && b@.subrange(pos as int, e) == dec(n as nat) implies e == i && run == dec(
            n as nat,
        ) && !overflow && v == n by {
            lemma_dec_digits(n as nat);
            let dn = dec(n as nat);
            if e < i {
                assert(is_digit(b@[e]));
            }
            if e > i {
                assert(b@.subrange(pos as int, e)[i - pos] == b@[i as int]);
                assert(is_digit(dn[i - pos]));
            }
            assert(run =~= b@.subrange(pos as int, e));
        }
    }
    if i == pos || overflow || (b[pos] == 48 && i - pos > 1) {
        proof {
            if i > pos && b@[pos as int] == 48 && i - pos > 1 {
                assert forall|n: u64, e: int|
                    #![trigger dec(n as nat), b@.subrange(pos as int, e)]
                    pos < e <= b@.len() && (e == b@.len() || !is_digit(b@[e])) implies b@.subrange(
                    pos as int,
                    e,
                ) != dec(n as nat) by {
                    if b@.subrange(pos as int, e) == dec(n as nat) {
                        lemma_dec_digits(n as nat);
                        assert(run[0] == 48);
                        assert(dec(n as nat)[0] == 48);
                        assert(n == 0);
                        assert(run.len() == 1);
                    }
                }
            }
        }
        None
    } else {
        proof {
            lemma_dec_of_value(run);
        }
        Some((v, i))
    }
}

/// Whether `b` holds `lit` at `pos`.
pub fn expect_at(b: &[u8], pos: usize, lit: &[u8]) -> (r: bool)
    requires
        pos <= b@.len(),
    ensures
        r == (pos + lit@.len() <= b@.len() && b@.subrange(pos as int, pos + lit@.len()) == lit@),
{
    if lit.len() > b.len() - pos {
        return false;
    }
    let mut j: usize = 0;
    let n = b.len();
    while j < lit.len()
        invariant
            n == b@.len(),
            pos + lit@.len() <= b@.len(),
            j <= lit@.len(),
            forall|k: int| 0 <= k < j ==> b@[pos + k] == lit@[k],
        decreases lit@.len() - j,
    {
        if b[pos + j] != lit[j] {
            assert(b@.subrange(pos as int, pos + lit@.len())[j as int] != lit@[j as int]);
            return false;
        }
        j = j + 1;
    }
    assert(b@.subrange(pos as int, pos + lit@.len()) =~= lit@);
    true
}

/// Where `b` continues with `lit` at `pos`, it holds `lit` there.
pub proof fn lemma_lit_in(b: Seq<u8>, pos: int, lit: Seq<u8>, after: Seq<u8>)
    requires
        0 <= pos <= b.len(),
        b.subrange(pos, b.len() as int) == lit + after,
    ensures
        pos + lit.len() <= b.len(),
        b.subrange(pos, pos + lit.len()) == lit,
        b.subrange(pos + lit.len(), b.len() as int) == after,
{
    let t = b.subrange(pos, b.len() as int);
    assert(t.len() == lit.len() + after.len());
    assert(b.subrange(pos, pos + lit.len()) =~= t.subrange(0, lit.len() as int));
    assert((lit + after).subrange(0, lit.len() as int) =~= lit);
    assert(b.subrange(pos + lit.len(), b.len() as int) =~= t.subrange(
        lit.len() as int,
        t.len() as int,
    ));
    assert((lit + after).subrange(lit.len() as int, t.len() as int) =~= after);
}

/// Where `b` continues with the digits of `n` and then a non-digit at `pos`,
/// the run of digits read there is `n`'s.
pub proof fn lemma_number_in(b: Seq<u8>, pos: int, n: u64, after: Seq<u8>)
    requires
        0 <= pos <= b.len(),
        b.subrange(pos, b.len() as int) == dec(n as nat) + after,
        after.len() > 0,
        !is_digit(after[0]),
    ensures
        pos < pos + dec(n as nat).len() < b.len(),
        b.subrange(pos, pos + dec(n as nat).len()) == dec(n as nat),
        !is_digit(b[pos + dec(n as nat).len()]),
        b.subrange(pos + dec(n as nat).len(), b.len() as int) == after,
        forall|v: u64, e: int|
            #![trigger dec(v as nat), b.subrange(pos, e)]
            pos < e <= b.len() && (e == b.len() || !is_digit(b[e])) && b.subrange(pos, e) == dec(
                v as nat,
            ) ==> e == pos + dec(n as nat).len() && v == n,
{
    lemma_dec_digits(n as nat);
    lemma_lit_in(b, pos, dec(n as nat), after);
    let e0 = pos + dec(n as nat).len();
    assert(b[e0] == b.subrange(e0, b.len() as int)[0]);
    assert forall|v: u64, e: int|
        #![trigger dec(v as nat), b.subrange(pos, e)]
        pos < e <= b.len() && (e == b.len() || !is_digit(b[e])) && b.subrange(pos, e) == dec(
            v as nat,
        ) implies e == e0 && v == n by {
        lemma_dec_digits(v as nat);
        if e < e0 {
            assert(b[e] == b.subrange(pos, e0)[e - pos]);
        }
        if e > e0 {
            assert(b[e0] == b.subrange(pos, e)[e0 - pos]);
        }
        lemma_dec_injective(v as nat, n as nat);
    }
}

pub proof fn lemma_list_push(s: Seq<u8>, x: u8)
    requires
        s.len() > 0,
    ensures
        list_bytes(s.push(x)) == list_bytes(s) + seq![44u8] + dec(x as nat),
{
    assert(s.push(x).skip(1) =~= s.skip(1).push(x));
    lemma_tail_push(s.skip(1), x);
    assert(s.push(x)[0] == s[0]);
    assert(list_bytes(s.push(x)) =~= list_bytes(s) + seq![44u8] + dec(x as nat));
}

/// Two numbers, each followed by a non-digit, that spell the same text
/// are the same number followed by the same text.
pub proof fn lemma_numbers_agree(n1: u64, a1: Seq<u8>, n2: u64, a2: Seq<u8>)
    requires
        dec(n1 as nat) + a1 == dec(n2 as nat) + a2,
        a1.len() > 0,
        !is_digit(a1[0]),
        a2.len() > 0,
        !is_digit(a2[0]),
    ensures
        n1 == n2,
        a1 == a2,
{
    let b = dec(n1 as nat) + a1;
    assert(b.subrange(0, b.len() as int) =~= b);
    lemma_number_in(b, 0, n1, a1);
    lemma_number_in(b, 0, n2, a2);
}

/// The text of a list of byte values, followed by `]`, determines the list.
pub proof fn lemma_tail_unique(m1: Seq<u8>, a1: Seq<u8>, m2: Seq<u8>, a2: Seq<u8>)
    requires
        tail_bytes(m1) + a1 == tail_bytes(m2) + a2,
        a1.len() > 0,
        a1[0] == 93,
        a2.len() > 0,
        a2[0] == 93,
    ensures
        m1 == m2,
    decreases m1.len(),
{
    let b = tail_bytes(m1) + a1;
    if m1.len() == 0 || m2.len() == 0 {
        if m1.len() > 0 {
            assert(b[0] == 44);
            assert(tail_bytes(m2) + a2 =~= a2);
        }
        if m2.len() > 0 {
            assert((tail_bytes(m2) + a2)[0] == 44);
            assert(tail_bytes(m1) + a1 =~= a1);
        }
        assert(m1 =~= m2);
    } else {
        let c1 = tail_bytes(m1.skip(1)) + a1;
        let c2 = tail_bytes(m2.skip(1)) + a2;
        assert(b =~= seq![44u8] + (dec(m1[0] as nat) + c1));
        assert(tail_bytes(m2) + a2 =~= seq![44u8] + (dec(m2[0] as nat) + c2));
        assert(dec(m1[0] as nat) + c1 =~= b.skip(1));
        assert(dec(m2[0] as nat) + c2 =~= b.skip(1));
        if m1.len() > 1 {
            assert(m1.skip(1)[0] == m1[1]);
            assert(c1[0] == 44);
        } else {
            assert(c1 =~= a1);
        }
        if m2.len() > 1 {
            assert(m2.skip(1)[0] == m2[1]);
            assert(c2[0] == 44);
        } else {
            assert(c2 =~= a2);
        }
        lemma_numbers_agree(m1[0] as u64, c1, m2[0] as u64, c2);
        lemma_tail_unique(m1.skip(1), a1, m2.skip(1), a2);
        assert(m1 =~= seq![m1[0]] + m1.skip(1));
        assert(m2 =~= seq![m2[0]] + m2.skip(1));
    }
}

pub proof fn lemma_list_unique(m1: Seq<u8>, a1: Seq<u8>, m2: Seq<u8>, a2: Seq<u8>)
    requires
        list_bytes(m1) + a1 == list_bytes(m2) + a2,
        a1.len() > 0,
        a1[0] == 93,
        a2.len() > 0,
        a2[0] == 93,
    ensures
        m1 == m2,
        a1 == a2,
{
    if m1.len() > 0 {
        lemma_dec_digits(m1[0] as nat);
    }
    if m2.len() > 0 {
        lemma_dec_digits(m2[0] as nat);
    }
    if m1.len() == 0 || m2.len() == 0 {
        if m1.len() > 0 {
            assert((list_bytes(m1) + a1)[0] == dec(m1[0] as nat)[0]);
            assert(list_bytes(m2) + a2 =~= a2);
        }
        if m2.len() > 0 {
            assert((list_bytes(m2) + a2)[0] == dec(m2[0] as nat)[0]);
            assert(list_bytes(m1) + a1 =~= a1);
        }
        assert(m1 =~= m2);
        assert(list_bytes(m1) + a1 =~= a1);
        assert(list_bytes(m2) + a2 =~= a2);
    } else {
        let c1 = tail_bytes(m1.skip(1)) + a1;
        let c2 = tail_bytes(m2.skip(1)) + a2;
        assert(list_bytes(m1) + a1 =~= dec(m1[0] as nat) + c1);
        assert(list_bytes(m2) + a2 =~= dec(m2[0] as nat) + c2);
        if m1.len() > 1 {
            assert(m1.skip(1)[0] == m1[1]);
            assert(c1[0] == 44);
        } else {
            assert(c1 =~= a1);
        }
        if m2.len() > 1 {
            assert(m2.skip(1)[0] == m2[1]);
            assert(c2[0] == 44);
        } else {
            assert(c2 =~= a2);
        }
        lemma_numbers_agree(m1[0] as u64, c1, m2[0] as u64, c2);
        lemma_tail_unique(m1.skip(1), a1, m2.skip(1), a2);
        assert(m1 =~= seq![m1[0]] + m1.skip(1));
        assert(m2 =~= seq![m2[0]] + m2.skip(1));
        assert(tail_bytes(m1.skip(1)).len() == tail_bytes(m2.skip(1)).len());
        assert(a1 =~= c1.skip(tail_bytes(m1.skip(1)).len() as int));
        assert(a2 =~= c2.skip(tail_bytes(m2.skip(1)).len() as int));
    }
}

/// Reads comma-separated byte values from `pos` up to the first byte that
/// neither continues a number nor separates two. Where the text there is the
/// list of `m` followed by `]`, the values read are `m`.
pub(crate) fn read_list(b: &[u8], pos: usize, Ghost(m): Ghost<Seq<u8>>, Ghost(after): Ghost<Seq<u8>>) -> (r:
    Option<(Vec<u8>, usize)>)
    requires
        pos <= b@.len(),
    ensures
        r matches Some((v, e)) ==> (pos <= e <= b@.len() && b@.subrange(pos as int, e as int)
            == list_bytes(v@)),
        b@.subrange(pos as int, b@.len() as int) == list_bytes(m) + after && after.len() > 0
            && after[0] == 93 ==> (r matches Some((v, e)) && v@ == m && e == pos + list_bytes(
            m,
        ).len()),
{
    let ghost target = b@.subrange(pos as int, b@.len() as int) == list_bytes(m) + after
        && after.len() > 0 && after[0] == 93;
    let mut out: Vec<u8> = Vec::new();
    if pos == b.len() || !(48 <= b[pos] && b[pos] <= 57) {
        proof {
            assert(b@.subrange(pos as int, pos as int) =~= list_bytes(out@));
            if target && m.len() > 0 {
                lemma_dec_digits(m[0] as nat);
                assert((list_bytes(m) + after)[0] == dec(m[0] as nat)[0]);
                assert(b@.subrange(pos as int, b@.len() as int)[0] == b@[pos as int]);
            }
            if target {
                assert(m.len() == 0);
                assert(m =~= out@);
            }
        }
        return Some((out, pos));
    }
    proof {
        if target {
            if m.len() == 0 {
                assert(b@.subrange(pos as int, b@.len() as int)[0] == b@[pos as int]);
                assert(list_bytes(m) + after =~= after);
            }
            assert(list_bytes(m) + after =~= dec(m[0] as nat) + (tail_bytes(m.skip(1)) + after));
            lemma_dec_digits(m[0] as nat);
            if m.len() > 1 {
                assert(m.skip(1)[0] == m[1]);
                assert((tail_bytes(m.skip(1)) + after)[0] == 44);
            } else {
                assert(tail_bytes(m.skip(1)) + after =~= after);
            }
            lemma_number_in(b@, pos as int, m[0] as u64, tail_bytes(m.skip(1)) + after);
        }
    }
    let first = read_dec(b, pos);
    let mut i: usize;
    match first {
        None => {
            return None;
        },
        Some((v, e)) => {
            if v > 255 {
                return None;
            }
            out.push(v as u8);
            i = e;
            proof {
                assert(out@ =~= seq![v as u8]);
                assert(b@.subrange(pos as int, e as int) =~= list_bytes(out@));
                if target {
                    assert(m.take(1) =~= out@);
                }
            }
        },
    }
    while i < b.len() && b[i] == 44
        invariant
            pos < i <= b@.len(),
            target == (b@.subrange(pos as int, b@.len() as int) == list_bytes(m) + after
                && after.len() > 0 && after[0] == 93),
            out@.len() >= 1,
            b@.subrange(pos as int, i as int) == list_bytes(out@),
            target ==> m.len() >= out@.len() && m.take(out@.len() as int) == out@ && b@.subrange(
                i as int,
                b@.len() as int,
            ) == tail_bytes(m.skip(out@.len() as int)) + after,
        decreases b@.len() - i,
    {
        let ghost k = out@.len() as int;
        proof {
            if target {
                if m.len() == k {
                    assert(m.skip(k) =~= Seq::<u8>::empty());
                    assert(tail_bytes(m.skip(k)) + after =~= after);
                    assert(b@.subrange(i as int, b@.len() as int)[0] == b@[i as int]);
                    assert(b@[i as int] == 44);
                    assert(after[0] == 93);
                    assert(false);
                }
                assert(m.skip(k)[0] == m[k]);
                assert(m.skip(k).skip(1) =~= m.skip(k + 1));
                assert(tail_bytes(m.skip(k)) + after =~= seq![44u8] + (dec(m[k] as nat) + (
                tail_bytes(m.skip(k + 1)) + after)));
                lemma_lit_in(
                    b@,
                    i as int,
                    seq![44u8],
                    dec(m[k] as nat) + (tail_bytes(m.skip(k + 1)) + after),
                );
                if m.len() > k + 1 {
                    assert(m.skip(k + 1)[0] == m[k + 1]);
                    assert((tail_bytes(m.skip(k + 1)) + after)[0] == 44);
                } else {
                    assert(m.skip(k + 1) =~= Seq::<u8>::empty());
                    assert(tail_bytes(m.skip(k + 1)) + after =~= after);
                }
            }
        }
        let j = i + 1;
        proof {
            if target {
                lemma_number_in(b@, j as int, m[k] as u64, tail_bytes(m.skip(k + 1)) + after);
            }
        }
        match read_dec(b, j) {
            None => {
                return None;
            },
            Some((v, e)) => {
                if v > 255 {
                    return None;
                }
                proof {
                    lemma_list_push(out@, v as u8);
                    assert(b@.subrange(pos as int, e as int) =~= b@.subrange(pos as int, i as int)
                        + seq![44u8] + b@.subrange(i + 1, e as int));
                }
                out.push(v as u8);
                i = e;
                proof {
                    if target {
                        assert(m.take(k + 1) =~= m.take(k).push(m[k]));
                    }
                }
            },
        }
    }
    proof {
        if target {
            let k = out@.len() as int;
            if m.len() > k {
                assert(m.skip(k)[0] == m[k]);
                assert((tail_bytes(m.skip(k)) + after)[0] == 44);
                assert(b@.subrange(i as int, b@.len() as int)[0] == b@[i as int]);
            }
            assert(m.take(k) =~= m);
            assert(m.skip(k) =~= Seq::<u8>::empty());
            lemma_lit_in(b@, pos as int, list_bytes(m), after);
            lemma_lit_in(b@, i as int, Seq::<u8>::empty(), after);
        }
    }
    Some((out, i))
}

} // verus!
