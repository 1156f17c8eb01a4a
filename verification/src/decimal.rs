//! Decimal numbers as text.
use vstd::prelude::*;

verus! {

/// The decimal digits of `n`, most significant first.
pub open spec fn decimal(n: nat) -> Seq<u8>
    decreases n,
{
    if n < 10 {
        seq![(48 + n) as u8]
    } else {
        decimal(n / 10).push((48 + n % 10) as u8)
    }
}

/// Ten to the power `k`.
pub open spec fn pow10(k: nat) -> nat
    decreases k,
{
    if k == 0 {
        1
    } else {
        10 * pow10((k - 1) as nat)
    }
}

proof fn lemma_decimal_len(n: nat, k: nat)
    requires
        n < pow10(k),
        k >= 1,
    ensures
        1 <= decimal(n).len() <= k,
    decreases k,
{
    if n >= 10 {
        if k == 1 {
            assert(pow10(1) == 10 * pow10(0));
        }
        lemma_decimal_len(n / 10, (k - 1) as nat);
    }
}

/// A 64-bit number has at most twenty digits, all of them ASCII digits.
pub proof fn lemma_decimal_u64(n: u64)
    ensures
        1 <= decimal(n as nat).len() <= 20,
        is_digits(decimal(n as nat)),
{
    assert(pow10(20) == 100_000_000_000_000_000_000) by {
        reveal_with_fuel(pow10, 21);
    }
    lemma_decimal_len(n as nat, 20);
    lemma_decimal_digits(n as nat);
}

/// Every byte is an ASCII digit.
pub open spec fn is_digits(s: Seq<u8>) -> bool {
    forall|i: int| 0 <= i < s.len() ==> 48 <= #[trigger] s[i] <= 57
}

/// A decimal number consists of digits.
pub proof fn lemma_decimal_digits(n: nat)
    ensures
        is_digits(decimal(n)),
        decimal(n).len() >= 1,
    decreases n,
{
    if n >= 10 {
        lemma_decimal_digits(n / 10);
    }
}

/// The digits of `v`.
pub fn digits(v: u64) -> (r: Vec<u8>)
    ensures
        r@ == decimal(v as nat),
{
    let mut buf: [u8; 20] = [0u8; 20];
    let end: usize = put_num(&mut buf, 0, v);
    let mut out: Vec<u8> = Vec::new();
    let mut i: usize = 0;
    proof {
        lemma_decimal_u64(v);
    }
    while i < end
        invariant
            i <= end <= 20,
            out@ == buf@.take(i as int),
        decreases end - i,
    {
        out.push(buf[i]);
        assert(buf@.take(i + 1) =~= buf@.take(i as int).push(buf@[i as int]));
        i += 1;
    }
    assert(out@ =~= decimal(v as nat));
    out
}

/// Write `v` in decimal at `at`, as far as there is room; returns the offset
/// after the digits.
pub fn put_num(buf: &mut [u8], at: usize, v: u64) -> (r: usize)
    requires
        at <= old(buf)@.len(),
    ensures
        final(buf)@.len() == old(buf)@.len(),
        r == if at + decimal(v as nat).len() <= old(buf)@.len() {
            at + decimal(v as nat).len()
        } else {
            old(buf)@.len() as int
        },
        final(buf)@ == old(buf)@.take(at as int) + decimal(v as nat).take(r - at) + old(buf)@.skip(
            r as int,
        ),
{
    assert(buf.len() == buf@.len());
    let ghost b0 = buf@;
    let ghost d = decimal(v as nat);
    proof {
        lemma_decimal_u64(v);
    }
    let mut text: [u8; 20] = [0u8; 20];
    let mut n: usize = 0;
    let mut x: u64 = v;
    while x >= 10
        invariant
            n + decimal(x as nat).len() == d.len(),
            d.len() <= 20,
            text@.len() == 20,
            forall|i: int| 0 <= i < n ==> #[trigger] text@[i] == d[d.len() - 1 - i],
            forall|i: int| 0 <= i < decimal(x as nat).len() ==> #[trigger] decimal(x as nat)[i] == d[i],
        decreases x,
    {
        let ghost prev = decimal(x as nat);
        proof {
            lemma_decimal_digits((x / 10) as nat);
            assert(prev =~= decimal((x / 10) as nat).push((48 + x % 10) as u8));
            assert(prev[prev.len() - 1] == d[prev.len() - 1]);
        }
        text[n] = (48 + x % 10) as u8;
        x = x / 10;
        n += 1;
        proof {
            assert forall|i: int| 0 <= i < decimal(x as nat).len() implies #[trigger] decimal(
                x as nat,
            )[i] == d[i] by {
                assert(prev[i] == d[i]);
            }
        }
    }
    assert(decimal(x as nat)[0] == d[0]);
    text[n] = (48 + x) as u8;
    n += 1;
    let mut pos: usize = at;
    let mut i: usize = n;
    while i > 0
        invariant
            i <= n,
            n == d.len(),
            n <= 20,
            at <= b0.len(),
            buf@.len() == b0.len(),
            buf.len() == buf@.len(),
            pos == if at + (n - i) <= b0.len() {
                at + (n - i)
            } else {
                b0.len() as int
            },
            forall|k: int| 0 <= k < n ==> #[trigger] text@[k] == d[d.len() - 1 - k],
            text@.len() == 20,
            buf@ == b0.take(at as int) + d.take(pos - at) + b0.skip(pos as int),
        decreases i,
    {
        i -= 1;
        if pos < buf.len() {
            let c: u8 = text[i];
            proof {
                assert(c == d[pos - at]);
                assert(d.take(pos + 1 - at) =~= d.take(pos - at).push(c));
                assert(b0.take(at as int) + d.take(pos + 1 - at) + b0.skip(pos + 1) =~= (b0.take(at as int)
                    + d.take(pos - at) + b0.skip(pos as int)).update(pos as int, c));
            }
            buf[pos] = c;
            pos += 1;
        }
    }
    pos
}

/// The number that ASCII digits spell.
pub open spec fn spelled(s: Seq<u8>) -> int
    decreases s.len(),
{
    if s.len() == 0 {
        0
    } else {
        10 * spelled(s.drop_last()) + (s.last() - 0x30)
    }
}

/// The digits of a number spell it, and the first of them is no 0 but for 0 itself.
pub proof fn lemma_decimal_spells(n: nat)
    ensures
        spelled(decimal(n)) == n,
        n > 0 ==> decimal(n)[0] != 0x30,
        n == 0 ==> decimal(n) == seq![0x30u8],
    decreases n,
{
    if n < 10 {
        assert(decimal(n).drop_last() =~= Seq::empty());
        assert(spelled(Seq::empty()) == 0);
    } else {
        lemma_decimal_spells(n / 10);
        lemma_decimal_digits(n / 10);
        assert(decimal(n).drop_last() =~= decimal(n / 10));
    }
}

} // verus!
