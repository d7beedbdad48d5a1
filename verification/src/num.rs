//! Decimal encoding and parsing of chat identifiers on bytes, with the
//! round-trip facts that the snapshot codec needs.

use vstd::prelude::*;

verus! {

/// ASCII code of '-'.
pub const MINUS: u8 = 45;

pub open spec fn is_digit(b: u8) -> bool {
    48 <= b <= 57
}

/// The decimal digits of `n`, most significant first.
pub open spec fn dec_digits(n: nat) -> Seq<u8>
    decreases n,
{
    if n < 10 {
        seq![(n + 48) as u8]
    } else {
        dec_digits(n / 10).push((n % 10 + 48) as u8)
    }
}

/// The decimal rendering of a signed id: a minus sign before the digits of
/// the magnitude when `n` is negative.
pub open spec fn dec_int(n: int) -> Seq<u8> {
    if n < 0 {
        seq![MINUS] + dec_digits((-n) as nat)
    } else {
        dec_digits(n as nat)
    }
}

/// The value of a digit string, read left to right.
pub open spec fn digits_val(s: Seq<u8>) -> nat
    decreases s.len(),
{
    if s.len() == 0 {
        0
    } else {
        digits_val(s.drop_last()) * 10 + (s.last() - 48) as nat
    }
}

pub open spec fn all_digits(s: Seq<u8>) -> bool {
    forall|i: int| 0 <= i < s.len() ==> is_digit(#[trigger] s[i])
}

/// What a well-formed decimal id string denotes: an optional minus sign,
/// then at least one digit, with a value in range for `i64`. Anything else
/// denotes nothing.
pub open spec fn parse_int_spec(s: Seq<u8>) -> Option<i64> {
    if s.len() > 0 && s[0] == MINUS {
        let ds = s.skip(1);
        if ds.len() > 0 && all_digits(ds) && digits_val(ds) <= 0x8000_0000_0000_0000 {
            Some((-(digits_val(ds) as int)) as i64)
        } else {
            None
        }
    } else if s.len() > 0 && all_digits(s) && digits_val(s) <= 0x7fff_ffff_ffff_ffff {
        Some(digits_val(s) as i64)
    } else {
        None
    }
}

pub proof fn lemma_dec_digits_wf(n: nat)
    ensures
        dec_digits(n).len() >= 1,
        all_digits(dec_digits(n)),
    decreases n,
{
    if n >= 10 {
        lemma_dec_digits_wf(n / 10);
        assert forall|i: int| 0 <= i < dec_digits(n).len() implies is_digit(
            #[trigger] dec_digits(n)[i],
        ) by {
            if i < dec_digits(n / 10).len() {
                assert(dec_digits(n)[i] == dec_digits(n / 10)[i]);
            }
        }
    }
}

/// Reading the digits of `n` back gives `n`.
pub proof fn lemma_digits_val_of_dec(n: nat)
    ensures
        digits_val(dec_digits(n)) == n,
    decreases n,
{
    if n < 10 {
        assert(dec_digits(n) == seq![(n + 48) as u8]);
        assert(dec_digits(n).drop_last() =~= Seq::<u8>::empty());
        assert(dec_digits(n).last() == (n + 48) as u8);
        assert((n + 48) as u8 == n + 48);
        assert(digits_val(Seq::<u8>::empty()) == 0);
        assert(dec_digits(n).drop_last() == Seq::<u8>::empty());
        assert(digits_val(dec_digits(n)) == digits_val(dec_digits(n).drop_last()) * 10 + (
        dec_digits(n).last() - 48) as nat);
    } else {
        lemma_digits_val_of_dec(n / 10);
        assert(dec_digits(n).drop_last() =~= dec_digits(n / 10));
        assert(dec_digits(n).last() == (n % 10 + 48) as u8);
        assert((n % 10 + 48) as u8 == n % 10 + 48);
        assert(digits_val(dec_digits(n)) == (n / 10) * 10 + n % 10);
    }
}

/// The decimal form of an id parses back to the id itself.
pub proof fn lemma_parse_of_dec_int(n: i64)
    ensures
        parse_int_spec(dec_int(n as int)) == Some(n),
{
    if n < 0 {
        let m = (-n) as nat;
        lemma_dec_digits_wf(m);
        lemma_digits_val_of_dec(m);
        assert(dec_int(n as int)[0] == MINUS);
        assert(dec_int(n as int).skip(1) =~= dec_digits(m));
    } else {
        lemma_dec_digits_wf(n as nat);
        lemma_digits_val_of_dec(n as nat);
        assert(dec_int(n as int)[0] != MINUS) by {
            assert(is_digit(dec_digits(n as nat)[0]));
        }
    }
}

/// Digit strings never contain structural bytes of the snapshot formats.
pub proof fn lemma_dec_int_bytes(n: i64)
    ensures
        forall|i: int|
            0 <= i < dec_int(n as int).len() ==> is_digit(#[trigger] dec_int(n as int)[i])
                || dec_int(n as int)[i] == MINUS,
{
    if n < 0 {
        lemma_dec_digits_wf((-n) as nat);
        assert forall|i: int| 0 <= i < dec_int(n as int).len() implies is_digit(
            #[trigger] dec_int(n as int)[i],
        ) || dec_int(n as int)[i] == MINUS by {
            if i > 0 {
                assert(dec_int(n as int)[i] == dec_digits((-n) as nat)[i - 1]);
            }
        }
    } else {
        lemma_dec_digits_wf(n as nat);
    }
}

/// The digits of a magnitude, most significant first.
pub fn encode_u64(n: u64) -> (r: Vec<u8>)
    ensures
        r@ == dec_digits(n as nat),
    decreases n,
{
    if n < 10 {
        let mut r: Vec<u8> = Vec::new();
        r.push((n as u8) + 48);
        assert(r@ =~= dec_digits(n as nat));
        r
    } else {
        let mut r = encode_u64(n / 10);
        r.push(((n % 10) as u8) + 48);
        r
    }
}

/// Renders a chat id in decimal, minus sign included.
pub fn encode_int(n: i64) -> (r: Vec<u8>)
    ensures
        r@ == dec_int(n as int),
{
    if n >= 0 {
        encode_u64(n as u64)
    } else {
        let m: u64 = if n == -0x8000_0000_0000_0000 {
            0x8000_0000_0000_0000u64
        } else {
            (-n) as u64
        };
        let mut r: Vec<u8> = Vec::new();
        r.push(MINUS);
        let mut ds = encode_u64(m);
        r.append(&mut ds);
        assert(r@ =~= dec_int(n as int));
        r
    }
}

/// Parses a whole byte string as a decimal chat id; `None` exactly on
/// strings that denote nothing.
pub fn parse_int(s: &Vec<u8>, from: usize, until: usize) -> (r: Option<i64>)
    requires
        from <= until <= s.len(),
    ensures
        r == parse_int_spec(s@.subrange(from as int, until as int)),
{
    let ghost full = s@.subrange(from as int, until as int);
    let neg = from < until && s[from] == MINUS;
    let start = if neg { from + 1 } else { from };
    let ghost ds = if neg { full.skip(1) } else { full };
    assert(ds =~= s@.subrange(start as int, until as int));
    if start == until {
        return None;
    }
    let mut i = start;
    let mut acc: u64 = 0;
    let mut over = false;
    while i < until
        invariant
            start <= i <= until <= s.len(),
            start < until,
            ds == s@.subrange(start as int, until as int),
            all_digits(ds.take(i - start)) ==> {
                &&& (over <==> digits_val(ds.take(i - start)) > 0x8000_0000_0000_0000)
                &&& (!over ==> acc == digits_val(ds.take(i - start)))
            },
            !all_digits(ds.take(i - start)) ==> over,
        decreases until - i,
    {
        let b = s[i];
        let ghost pre = ds.take(i - start);
        let ghost cur = ds.take(i + 1 - start);
        assert(cur.drop_last() =~= pre);
        assert(cur.last() == b);
        if b < 48 || b > 57 {
            over = true;
        } else if over {
            proof {
                if all_digits(cur) {
                    assert(all_digits(pre));
                    assert(digits_val(pre) > 0x8000_0000_0000_0000);
                    assert(digits_val(cur) == digits_val(pre) * 10 + (b - 48));
                    assert(digits_val(pre) * 10 >= digits_val(pre)) by (nonlinear_arith)
                        requires
                            digits_val(pre) >= 0,
                    ;
                }
            }
        } else {
            proof {
                assert(all_digits(pre));
            }
            let d = (b - 48) as u64;
            if acc > 0xCCC_CCCC_CCCC_CCCC {
                // acc * 10 would pass the largest magnitude of an i64
                over = true;
                proof {
                    assert(digits_val(cur) == digits_val(pre) * 10 + (b - 48));
                    assert(digits_val(pre) * 10 > 0x8000_0000_0000_0000) by (nonlinear_arith)
                        requires
                            digits_val(pre) > 0xCCC_CCCC_CCCC_CCCC,
                    ;
                }
            } else {
                acc = acc * 10 + d;
                if acc > 0x8000_0000_0000_0000 {
                    over = true;
                }
            }
        }
        i = i + 1;
    }
    assert(ds.take(until - start) =~= ds);
    if over {
        return None;
    }
    if neg {
        if acc == 0x8000_0000_0000_0000 {
            Some(-0x8000_0000_0000_0000i64)
        } else {
            Some(-(acc as i64))
        }
    } else {
        if acc > 0x7fff_ffff_ffff_ffff {
            None
        } else {
            Some(acc as i64)
        }
    }
}

} // verus!
