//! The string form of a state key: its ids in decimal, joined by `_`.
//! Formats whose mapping keys must be scalars store states under this form.

use vstd::prelude::*;

use crate::text::{chars_of, string_from_chars};

verus! {

/// The character for a decimal digit.
pub open spec fn digit_char(d: nat) -> char {
    if d == 0 { '0' }
    else if d == 1 { '1' }
    else if d == 2 { '2' }
    else if d == 3 { '3' }
    else if d == 4 { '4' }
    else if d == 5 { '5' }
    else if d == 6 { '6' }
    else if d == 7 { '7' }
    else if d == 8 { '8' }
    else { '9' }
}

/// The value of a decimal digit character, if `c` is one.
pub open spec fn digit_value(c: char) -> Option<nat> {
    if c == '0' { Some(0) }
    else if c == '1' { Some(1) }
    else if c == '2' { Some(2) }
    else if c == '3' { Some(3) }
    else if c == '4' { Some(4) }
    else if c == '5' { Some(5) }
    else if c == '6' { Some(6) }
    else if c == '7' { Some(7) }
    else if c == '8' { Some(8) }
    else if c == '9' { Some(9) }
    else { None }
}

/// `n` written in decimal, without leading zeros.
pub open spec fn decimal(n: nat) -> Seq<char>
    decreases n,
{
    if n < 10 {
        seq![digit_char(n)]
    } else {
        decimal(n / 10).push(digit_char(n % 10))
    }
}

/// The encoded form of a key: each id in decimal, separated by `_`.
pub open spec fn encoded(k: Seq<usize>) -> Seq<char>
    decreases k.len(),
{
    if k.len() == 0 {
        Seq::empty()
    } else if k.len() == 1 {
        decimal(k[0] as nat)
    } else {
        encoded(k.drop_last()) + seq!['_'] + decimal(k.last() as nat)
    }
}

/// Reading a string left to right: the ids completed so far and the value of
/// the digits of the part under way (`None` before its first digit), or
/// `None` once the text cannot be a key (a character other than a digit or
/// `_`, an empty part, or a part above `usize::MAX`).
pub open spec fn scan(s: Seq<char>) -> Option<(Seq<usize>, Option<nat>)>
    decreases s.len(),
{
    if s.len() == 0 {
        Some((Seq::empty(), None))
    } else {
        match scan(s.drop_last()) {
            None => None,
            Some((done, cur)) => {
                let c = s.last();
                if c == '_' {
                    match cur {
                        None => None,
                        Some(v) => Some((done.push(v as usize), None)),
                    }
                } else {
                    match digit_value(c) {
                        None => None,
                        Some(d) => {
                            let v = match cur {
                                None => d,
                                Some(p) => p * 10 + d,
                            };
                            if v > usize::MAX { None } else { Some((done, Some(v))) }
                        },
                    }
                }
            },
        }
    }
}

/// The key that a string encodes, if it encodes one.
pub open spec fn decoded(s: Seq<char>) -> Option<Seq<usize>> {
    match scan(s) {
        Some((done, Some(v))) => Some(done.push(v as usize)),
        _ => None,
    }
}

fn digit_to_char(d: usize) -> (c: char)
    requires
        d < 10,
    ensures
        c == digit_char(d as nat),
{
    if d == 0 { '0' }
    else if d == 1 { '1' }
    else if d == 2 { '2' }
    else if d == 3 { '3' }
    else if d == 4 { '4' }
    else if d == 5 { '5' }
    else if d == 6 { '6' }
    else if d == 7 { '7' }
    else if d == 8 { '8' }
    else { '9' }
}

fn char_to_digit(c: char) -> (r: Option<usize>)
    ensures
        r matches Some(d) ==> digit_value(c) == Some(d as nat),
        r is None ==> digit_value(c) is None,
{
    if c == '0' { Some(0) }
    else if c == '1' { Some(1) }
    else if c == '2' { Some(2) }
    else if c == '3' { Some(3) }
    else if c == '4' { Some(4) }
    else if c == '5' { Some(5) }
    else if c == '6' { Some(6) }
    else if c == '7' { Some(7) }
    else if c == '8' { Some(8) }
    else if c == '9' { Some(9) }
    else { None }
}

fn push_decimal(out: &mut Vec<char>, n: usize)
    ensures
        final(out)@ == old(out)@ + decimal(n as nat),
    decreases n,
{
    if n >= 10 {
        push_decimal(out, n / 10);
    }
    out.push(digit_to_char(n % 10));
    assert(out@ == old(out)@ + decimal(n as nat));
}

/// Writes a key as its ids in decimal joined by `_`.
pub fn encode_key(key: &[usize]) -> (r: String)
    ensures
        r@ == encoded(key@),
{
    let mut out: Vec<char> = Vec::new();
    let mut i: usize = 0;
    while i < key.len()
        invariant
            i <= key@.len(),
            out@ == encoded(key@.subrange(0, i as int)),
        decreases key@.len() - i,
    {
        let ghost before = out@;
        if i > 0 {
            out.push('_');
        }
        push_decimal(&mut out, key[i]);
        proof {
            let k = key@.subrange(0, i + 1);
            assert(k.drop_last() == key@.subrange(0, i as int));
            if i == 0 {
                assert(before == Seq::<char>::empty());
                assert(out@ == decimal(key@[0] as nat));
            } else {
                assert(out@ == before + seq!['_'] + decimal(k.last() as nat));
            }
        }
        i = i + 1;
    }
    assert(key@.subrange(0, key@.len() as int) == key@);
    string_from_chars(&out)
}

/// Reads a key back from its encoded form; `None` where the text is not one.
pub fn decode_key(s: &str) -> (r: Option<Vec<usize>>)
    ensures
        r matches Some(k) ==> decoded(s@) == Some(k@),
        r is None ==> decoded(s@) is None,
{
    let cs = chars_of(s);
    let mut done: Vec<usize> = Vec::new();
    let mut cur: usize = 0;
    let mut started: bool = false;
    let mut i: usize = 0;
    while i < cs.len()
        invariant
            i <= cs@.len(),
            cs@ == s@,
            scan(cs@.subrange(0, i as int)) == Some(
                (done@, if started { Some(cur as nat) } else { None::<nat> }),
            ),
        decreases cs@.len() - i,
    {
        let c = cs[i];
        let ghost pre = cs@.subrange(0, i as int);
        assert(cs@.subrange(0, i + 1).drop_last() == pre);
        if c == '_' {
            if !started {
                proof { lemma_scan_stuck(cs@, i + 1); }
                return None;
            }
            done.push(cur);
            started = false;
            cur = 0;
        } else {
            match char_to_digit(c) {
                None => {
                    proof { lemma_scan_stuck(cs@, i + 1); }
                    return None;
                },
                Some(d) => {
                    let base: usize = if started { cur } else { 0 };
                    if base > (usize::MAX - d) / 10 {
                        assert(base * 10 + d > usize::MAX) by (nonlinear_arith)
                            requires
                                base > (usize::MAX - d) / 10,
                                d < 10,
                        ;
                        proof { lemma_scan_stuck(cs@, i + 1); }
                        return None;
                    }
                    assert(base * 10 + d <= usize::MAX) by (nonlinear_arith)
                        requires
                            base <= (usize::MAX - d) / 10,
                            d < 10,
                    ;
                    cur = base * 10 + d;
                    started = true;
                },
            }
        }
        i = i + 1;
    }
    assert(cs@.subrange(0, cs@.len() as int) == cs@);
    if !started {
        return None;
    }
    done.push(cur);
    Some(done)
}

proof fn lemma_scan_stuck(s: Seq<char>, k: int)
    requires
        0 <= k <= s.len(),
        scan(s.subrange(0, k)) is None,
    ensures
        scan(s) is None,
    decreases s.len() - k,
{
    if k < s.len() {
        assert(s.subrange(0, k + 1).drop_last() == s.subrange(0, k));
        lemma_scan_stuck(s, k + 1);
    } else {
        assert(s.subrange(0, k) == s);
    }
}

proof fn lemma_scan_decimal(p: Seq<char>, done: Seq<usize>, n: nat)
    requires
        scan(p) == Some((done, None::<nat>)),
        n <= usize::MAX,
    ensures
        scan(p + decimal(n)) == Some((done, Some(n))),
    decreases n,
{
    let s = p + decimal(n);
    if n < 10 {
        assert(s.drop_last() == p);
    } else {
        lemma_scan_decimal(p, done, n / 10);
        assert(s.drop_last() == p + decimal(n / 10));
    }
    let d = n % 10;
    assert(digit_value(digit_char(d)) == Some(d));
}

proof fn lemma_scan_encoded(k: Seq<usize>)
    requires
        k.len() > 0,
    ensures
        scan(encoded(k)) == Some((k.drop_last(), Some(k.last() as nat))),
    decreases k.len(),
{
    if k.len() == 1 {
        assert(Seq::<char>::empty() + decimal(k[0] as nat) == decimal(k[0] as nat));
        lemma_scan_decimal(Seq::empty(), Seq::empty(), k[0] as nat);
        assert(k.drop_last() == Seq::<usize>::empty());
    } else {
        let head = k.drop_last();
        lemma_scan_encoded(head);
        let p = encoded(head) + seq!['_'];
        assert(p.drop_last() == encoded(head));
        assert(head.drop_last().push(head.last()) == head);
        lemma_scan_decimal(p, head, k.last() as nat);
    }
}

/// Decoding an encoded key gives the key back.
pub proof fn lemma_decode_encode(k: Seq<usize>)
    requires
        k.len() > 0,
    ensures
        decoded(encoded(k)) == Some(k),
{
    lemma_scan_encoded(k);
    assert(k.drop_last().push(k.last()) == k);
}

} // verus!
