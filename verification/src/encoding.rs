use vstd::prelude::*;

use vstd::arithmetic::power2::{lemma2_to64, lemma_pow2_adds, pow2};
use vstd::string::StringSliceAdditionalSpecFns;

verus! {

// Operator directories hand out curve coordinates as decimal strings and
// signatures as hex strings. Both decoders live here, each with an exact
// arithmetic meaning: the bytes produced denote the same number the string
// does.

/// An ASCII decimal digit.
pub open spec fn is_dec_digit(b: u8) -> bool {
    48 <= b && b <= 57
}

/// The value of an ASCII decimal digit.
pub open spec fn dec_digit_val(b: u8) -> nat {
    if b >= 48 {
        (b - 48) as nat
    } else {
        0
    }
}

pub open spec fn all_dec_digits(s: Seq<u8>) -> bool {
    forall|i: int| 0 <= i < s.len() ==> is_dec_digit(s[i])
}

/// The number a decimal digit string denotes, most significant digit first.
pub open spec fn dec_val(s: Seq<u8>) -> nat
    decreases s.len(),
{
    if s.len() == 0 {
        0
    } else {
        dec_val(s.drop_last()) * 10 + dec_digit_val(s.last())
    }
}

/// The number a byte string denotes, big-endian.
pub open spec fn be_bytes_val(b: Seq<u8>) -> nat
    decreases b.len(),
{
    if b.len() == 0 {
        0
    } else {
        be_bytes_val(b.drop_last()) * 256 + b.last() as nat
    }
}

/// Big-endian reading splits over concatenation: the left part is shifted by
/// the width of the right part.
proof fn lemma_be_bytes_val_concat(a: Seq<u8>, b: Seq<u8>)
    ensures
        be_bytes_val(a + b) == be_bytes_val(a) * pow2(8 * b.len()) + be_bytes_val(b),
    decreases b.len(),
{
    lemma2_to64();
    if b.len() == 0 {
        assert(a + b =~= a);
        assert(pow2(0) == 1);
        assert(be_bytes_val(b) == 0);
        assert(be_bytes_val(a) * pow2(8 * b.len()) == be_bytes_val(a) * 1);
    } else {
        assert((a + b).drop_last() =~= a + b.drop_last());
        assert((a + b).last() == b.last());
        lemma_be_bytes_val_concat(a, b.drop_last());
        lemma_pow2_adds((8 * (b.len() - 1)) as nat, 8);
        assert(pow2(8) == 256);
        let x = be_bytes_val(a);
        let p = pow2((8 * (b.len() - 1)) as nat);
        let y = be_bytes_val(b.drop_last());
        assert((x * p + y) * 256 == x * (p * 256) + y * 256) by (nonlinear_arith);
        assert(pow2(8 * b.len()) == p * 256);
        assert(be_bytes_val(a + b) == be_bytes_val((a + b).drop_last()) * 256 + (a + b).last());
        assert(be_bytes_val((a + b).drop_last()) == x * p + y);
        assert(be_bytes_val(b) == y * 256 + b.last());
        assert(x * pow2(8 * b.len()) == x * (p * 256)) by (nonlinear_arith)
            requires
                pow2(8 * b.len()) == p * 256,
        ;
        assert(be_bytes_val(a + b) == x * pow2(8 * b.len()) + be_bytes_val(b));
    }
}

/// A byte string's value is below the power of two of its bit width.
proof fn lemma_be_bytes_val_bound(b: Seq<u8>)
    ensures
        be_bytes_val(b) < pow2(8 * b.len()),
    decreases b.len(),
{
    lemma2_to64();
    if b.len() == 0 {
        assert(pow2(0) == 1);
    } else {
        lemma_be_bytes_val_bound(b.drop_last());
        lemma_pow2_adds(8 * (b.len() - 1) as nat, 8);
        let p = pow2(8 * (b.len() - 1) as nat);
        let y = be_bytes_val(b.drop_last());
        assert(y + 1 <= p);
        assert(y * 256 + 256 <= p * 256) by (nonlinear_arith)
            requires
                y + 1 <= p,
        ;
        assert(pow2(8) == 256);
    }
}

/// A digit string's value only grows as more digits are appended.
proof fn lemma_dec_val_prefix(s: Seq<u8>, k: int)
    requires
        0 <= k <= s.len(),
    ensures
        dec_val(s.subrange(0, k)) <= dec_val(s),
    decreases s.len(),
{
    if k < s.len() {
        assert(s.drop_last().subrange(0, k) =~= s.subrange(0, k));
        lemma_dec_val_prefix(s.drop_last(), k);
        assert(dec_val(s.drop_last()) * 10 + dec_digit_val(s.last()) >= dec_val(s.drop_last()))
            by (nonlinear_arith);
    } else {
        assert(s.subrange(0, k) =~= s);
    }
}

proof fn lemma_be_bytes_val_single(x: u8)
    ensures
        be_bytes_val(seq![x]) == x,
{
    assert(seq![x].drop_last() =~= Seq::<u8>::empty());
    assert(be_bytes_val(Seq::<u8>::empty()) == 0);
    assert(seq![x].last() == x);
}

proof fn lemma_zero_bytes_val(b: Seq<u8>)
    requires
        forall|i: int| 0 <= i < b.len() ==> b[i] == 0,
    ensures
        be_bytes_val(b) == 0,
    decreases b.len(),
{
    if b.len() > 0 {
        lemma_zero_bytes_val(b.drop_last());
    }
}

/// Decodes a decimal string into the 48-byte big-endian form of the number it
/// denotes: exactly the strings that are nonempty, all digits, and denote a
/// number below 2^384 are accepted, and the bytes denote the same number.
pub fn dec_to_be48(s: &str) -> (r: Option<Vec<u8>>)
    ensures
        r is Some <==> (s.spec_bytes().len() > 0 && all_dec_digits(s.spec_bytes()) && dec_val(
            s.spec_bytes(),
        ) < pow2(384)),
        r matches Some(v) ==> v@.len() == 48 && be_bytes_val(v@) == dec_val(s.spec_bytes()),
{
    let d = s.as_bytes();
    let ghost dv = s.spec_bytes();
    if d.len() == 0 {
        return None;
    }
    let mut out: Vec<u8> = Vec::new();
    let mut z: usize = 0;
    #[verifier::loop_isolation(false)]
    while z < 48
        invariant
            out@.len() == z,
            z <= 48,
            forall|t: int| 0 <= t < z ==> out@[t] == 0,
        decreases 48 - z,
    {
        out.push(0u8);
        z = z + 1;
    }
    proof {
        lemma_zero_bytes_val(out@);
    }
    let mut i: usize = 0;
    #[verifier::loop_isolation(false)]
    while i < d.len()
        invariant
            i <= dv.len(),
            out@.len() == 48,
            all_dec_digits(dv.subrange(0, i as int)),
            be_bytes_val(out@) == dec_val(dv.subrange(0, i as int)),
        decreases dv.len() - i,
    {
        let c = d[i];
        if c < 48 || c > 57 {
            assert(!is_dec_digit(dv[i as int]));
            return None;
        }
        let digit: u32 = (c - 48) as u32;
        let ghost old_out = out@;
        let ghost w = dec_val(dv.subrange(0, i as int));
        let mut carry: u32 = digit;
        let mut j: usize = 48;
        proof {
            assert(out@.skip(48) =~= Seq::<u8>::empty());
            assert(old_out.skip(48) =~= Seq::<u8>::empty());
            lemma2_to64();
        }
        #[verifier::loop_isolation(false)]
        while j > 0
            invariant
                j <= 48,
                out@.len() == 48,
                carry <= 9,
                out@.subrange(0, j as int) == old_out.subrange(0, j as int),
                be_bytes_val(out@.skip(j as int)) + carry * pow2(8 * (48 - j) as nat)
                    == be_bytes_val(old_out.skip(j as int)) * 10 + digit,
            decreases j,
        {
            let ghost mid_out = out@;
            let ghost mid_carry = carry as nat;
            let jj = j - 1;
            let t: u32 = (out[jj] as u32) * 10 + carry;
            let nb: u8 = (t % 256) as u8;
            out.set(jj, nb);
            carry = t / 256;
            proof {
                let w0 = pow2(8 * (48 - j) as nat);
                let w1 = pow2(8 * (48 - jj) as nat);
                lemma_pow2_adds(8 * (48 - j) as nat, 8);
                assert(pow2(8) == 256);
                assert(w1 == w0 * 256);
                assert(out@.skip(jj as int) =~= seq![nb] + mid_out.skip(j as int));
                assert(mid_out.skip(jj as int) =~= seq![mid_out[jj as int]] + mid_out.skip(
                    j as int,
                ));
                assert(old_out.skip(jj as int) =~= seq![old_out[jj as int]] + old_out.skip(
                    j as int,
                ));
                lemma_be_bytes_val_concat(seq![nb], mid_out.skip(j as int));
                lemma_be_bytes_val_concat(seq![mid_out[jj as int]], mid_out.skip(j as int));
                lemma_be_bytes_val_concat(seq![old_out[jj as int]], old_out.skip(j as int));
                lemma_be_bytes_val_single(nb);
                lemma_be_bytes_val_single(mid_out[jj as int]);
                lemma_be_bytes_val_single(old_out[jj as int]);
                assert(mid_out.subrange(0, j as int)[jj as int] == old_out.subrange(
                    0,
                    j as int,
                )[jj as int]);
                assert(be_bytes_val(seq![nb]) == nb);
                assert(be_bytes_val(seq![mid_out[jj as int]]) == mid_out[jj as int]);
                assert(be_bytes_val(seq![old_out[jj as int]]) == old_out[jj as int]);
                assert(mid_out[jj as int] == old_out[jj as int]);
                // t splits into its low byte and its carry.
                assert(t == 256 * (t / 256) + t % 256);
                let b0 = mid_out[jj as int] as nat;
                let s0 = be_bytes_val(mid_out.skip(j as int));
                let os0 = be_bytes_val(old_out.skip(j as int));
                assert(s0 + mid_carry * w0 == os0 * 10 + digit);
                assert(t as nat == b0 * 10 + mid_carry);
                assert((nb as nat) * w0 + ((t / 256) as nat) * (w0 * 256) + s0 == (b0 * w0 + os0)
                    * 10 + digit) by (nonlinear_arith)
                    requires
                        t as nat == b0 * 10 + mid_carry,
                        t as nat == 256 * ((t / 256) as nat) + (nb as nat),
                        s0 + mid_carry * w0 == os0 * 10 + digit,
                ;
                assert(be_bytes_val(out@.skip(jj as int)) == (nb as nat) * w0 + s0);
                assert(be_bytes_val(old_out.skip(jj as int)) == b0 * w0 + os0);
                assert(out@.subrange(0, jj as int) =~= old_out.subrange(0, jj as int));
            }
            j = jj;
        }
        proof {
            assert(out@.skip(0) =~= out@);
            assert(old_out.skip(0) =~= old_out);
            assert(be_bytes_val(out@) + (carry as nat) * pow2(384) == be_bytes_val(old_out) * 10
                + digit);
            assert(digit as nat == dec_digit_val(dv[i as int]));
            assert(dv.subrange(0, i as int + 1).drop_last() =~= dv.subrange(0, i as int));
            assert(dv.subrange(0, i as int + 1).last() == dv[i as int]);
            assert(dec_val(dv.subrange(0, i as int + 1)) == w * 10 + digit);
        }
        if carry != 0 {
            proof {
                lemma_be_bytes_val_bound(out@);
                assert(carry as nat * pow2(384) >= pow2(384)) by (nonlinear_arith)
                    requires
                        carry >= 1,
                ;
                assert(dec_val(dv.subrange(0, i as int + 1)) >= pow2(384));
                lemma_dec_val_prefix(dv, i as int + 1);
            }
            return None;
        }
        proof {
            assert(carry == 0);
            assert(all_dec_digits(dv.subrange(0, i as int + 1)));
            assert(be_bytes_val(old_out) == w);
            assert((carry as nat) * pow2(384) == 0) by (nonlinear_arith)
                requires
                    carry == 0,
            ;
            assert(be_bytes_val(out@) == w * 10 + digit);
            assert(be_bytes_val(out@) == dec_val(dv.subrange(0, i as int + 1)));
        }
        i = i + 1;
    }
    proof {
        assert(dv.subrange(0, dv.len() as int) =~= dv);
        lemma_be_bytes_val_bound(out@);
    }
    Some(out)
}

/// The k-byte big-endian form of a number.
pub open spec fn nat_to_be(n: nat, k: nat) -> Seq<u8>
    decreases k,
{
    if k == 0 {
        Seq::empty()
    } else {
        nat_to_be(n / 256, (k - 1) as nat).push((n % 256) as u8)
    }
}

proof fn lemma_nat_to_be_val(n: nat, k: nat)
    requires
        n < pow2(8 * k),
    ensures
        nat_to_be(n, k).len() == k,
        be_bytes_val(nat_to_be(n, k)) == n,
    decreases k,
{
    lemma2_to64();
    if k == 0 {
        assert(pow2(0) == 1);
    } else {
        lemma_pow2_adds((8 * (k - 1)) as nat, 8);
        assert(pow2(8) == 256);
        let p = pow2((8 * (k - 1)) as nat);
        assert(n < p * 256);
        assert(n / 256 < p) by (nonlinear_arith)
            requires
                n < p * 256,
        ;
        lemma_nat_to_be_val(n / 256, (k - 1) as nat);
        let b = nat_to_be(n, k);
        assert(b.drop_last() =~= nat_to_be(n / 256, (k - 1) as nat));
        assert(b.last() == (n % 256) as u8);
        assert(n == 256 * (n / 256) + n % 256);
    }
}

/// Equal-length byte strings with the same big-endian value are equal.
proof fn lemma_be_bytes_val_injective(a: Seq<u8>, b: Seq<u8>)
    requires
        a.len() == b.len(),
        be_bytes_val(a) == be_bytes_val(b),
    ensures
        a == b,
    decreases a.len(),
{
    if a.len() == 0 {
        assert(a =~= b);
    } else {
        let va = be_bytes_val(a.drop_last());
        let vb = be_bytes_val(b.drop_last());
        assert(va * 256 + a.last() as nat == vb * 256 + b.last() as nat);
        assert(a.last() == b.last() && va == vb) by (nonlinear_arith)
            requires
                va * 256 + a.last() as nat == vb * 256 + b.last() as nat,
                a.last() < 256,
                b.last() < 256,
        ;
        lemma_be_bytes_val_injective(a.drop_last(), b.drop_last());
        assert(a =~= a.drop_last().push(a.last()));
        assert(b =~= b.drop_last().push(b.last()));
        assert(a == b);
    }
}

/// Whether a coordinate string is a decimal number of a field element's
/// size: nonempty, all digits, below 2^384.
pub open spec fn coord_ok(s: Seq<char>) -> bool {
    &&& vstd::utf8::encode_utf8(s).len() > 0
    &&& all_dec_digits(vstd::utf8::encode_utf8(s))
    &&& dec_val(vstd::utf8::encode_utf8(s)) < pow2(384)
}

/// The 48-byte big-endian form of the number a coordinate string denotes.
pub open spec fn coord48(s: Seq<char>) -> Seq<u8> {
    nat_to_be(dec_val(vstd::utf8::encode_utf8(s)), 48)
}

/// Decodes a coordinate string into the canonical 48-byte big-endian form of
/// the field-element-sized number it denotes.
pub fn coord_to_be48(s: &str) -> (r: Option<Vec<u8>>)
    ensures
        r is Some <==> coord_ok(s@),
        r matches Some(v) ==> v@ == coord48(s@) && v@.len() == 48,
{
    let r = dec_to_be48(s);
    proof {
        assert(s.spec_bytes() == vstd::utf8::encode_utf8(s@));
        match r {
            Some(ref v) => {
                lemma_nat_to_be_val(dec_val(s.spec_bytes()), 48);
                lemma_be_bytes_val_injective(v@, coord48(s@));
            },
            None => {},
        }
    }
    r
}

/// An ASCII hex digit, either case.
pub open spec fn is_hex_digit(b: u8) -> bool {
    (48 <= b && b <= 57) || (97 <= b && b <= 102) || (65 <= b && b <= 70)
}

/// The value of an ASCII hex digit.
pub open spec fn hex_digit_val(b: u8) -> nat {
    if 48 <= b && b <= 57 {
        (b - 48) as nat
    } else if 97 <= b && b <= 102 {
        (b - 87) as nat
    } else if 65 <= b && b <= 70 {
        (b - 55) as nat
    } else {
        0
    }
}

/// Whether a byte string is well-formed hex: even length, hex digits only.
pub open spec fn hex_ok(s: Seq<u8>) -> bool {
    s.len() % 2 == 0 && forall|i: int| 0 <= i < s.len() ==> is_hex_digit(s[i])
}

/// The bytes a well-formed hex string denotes, two digits per byte.
pub open spec fn hex_bytes(s: Seq<u8>) -> Seq<u8> {
    Seq::new(s.len() / 2, |k: int| (hex_digit_val(s[2 * k]) * 16 + hex_digit_val(s[2 * k + 1])) as u8)
}

fn hex_digit(c: u8) -> (r: Option<u8>)
    ensures
        r is Some <==> is_hex_digit(c),
        r matches Some(v) ==> v as nat == hex_digit_val(c) && v <= 15,
{
    if 48 <= c && c <= 57 {
        Some(c - 48)
    } else if 97 <= c && c <= 102 {
        Some(c - 87)
    } else if 65 <= c && c <= 70 {
        Some(c - 55)
    } else {
        None
    }
}

/// Decodes a hex string: exactly the even-length, all-hex-digit strings are
/// accepted, and each output byte is the value of its two digits.
pub fn hex_to_bytes(s: &str) -> (r: Option<Vec<u8>>)
    ensures
        r is Some <==> hex_ok(s.spec_bytes()),
        r matches Some(v) ==> v@ == hex_bytes(s.spec_bytes()),
{
    let d = s.as_bytes();
    let ghost dv = s.spec_bytes();
    if d.len() % 2 != 0 {
        return None;
    }
    let mut out: Vec<u8> = Vec::new();
    let mut k: usize = 0;
    #[verifier::loop_isolation(false)]
    while k < d.len() / 2
        invariant
            k <= dv.len() / 2,
            dv.len() % 2 == 0,
            out@.len() == k,
            forall|t: int| 0 <= t < 2 * k ==> is_hex_digit(dv[t]),
            forall|t: int|
                0 <= t < k ==> out@[t] == (hex_digit_val(dv[2 * t]) * 16 + hex_digit_val(
                    dv[2 * t + 1],
                )) as u8,
        decreases dv.len() / 2 - k,
    {
        let hi = match hex_digit(d[2 * k]) {
            Some(v) => v,
            None => {
                return None;
            },
        };
        let lo = match hex_digit(d[2 * k + 1]) {
            Some(v) => v,
            None => {
                return None;
            },
        };
        out.push(hi * 16 + lo);
        k = k + 1;
    }
    proof {
        assert(out@ =~= hex_bytes(dv));
    }
    Some(out)
}

} // verus!
