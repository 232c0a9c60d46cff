use vstd::prelude::*;

verus! {

/// The character for one decimal digit.
pub open spec fn digit_char(d: nat) -> char {
    if d == 0 {
        '0'
    } else if d == 1 {
        '1'
    } else if d == 2 {
        '2'
    } else if d == 3 {
        '3'
    } else if d == 4 {
        '4'
    } else if d == 5 {
        '5'
    } else if d == 6 {
        '6'
    } else if d == 7 {
        '7'
    } else if d == 8 {
        '8'
    } else {
        '9'
    }
}

/// The decimal rendering of `n`, without leading zeros.
pub open spec fn spec_digits(n: nat) -> Seq<char>
    decreases n,
{
    if n < 10 {
        seq![digit_char(n)]
    } else {
        spec_digits(n / 10) + seq![digit_char(n % 10)]
    }
}

pub open spec fn is_digit_char(c: char) -> bool {
    c == '0' || c == '1' || c == '2' || c == '3' || c == '4' || c == '5' || c == '6' || c == '7'
        || c == '8' || c == '9'
}

pub open spec fn is_digit_seq(s: Seq<char>) -> bool {
    forall|i: int| 0 <= i < s.len() ==> is_digit_char(s[i])
}

/// A decimal rendering is non-empty, consists of digits, and has one
/// character exactly for the numbers below ten.
pub proof fn lemma_digits_props(n: nat)
    ensures
        spec_digits(n).len() >= 1,
        is_digit_seq(spec_digits(n)),
        n < 10 <==> spec_digits(n).len() == 1,
    decreases n,
{
    if n < 10 {
    } else {
        lemma_digits_props(n / 10);
    }
}

proof fn lemma_digit_char_inj(x: nat, y: nat)
    requires
        x < 10,
        y < 10,
        digit_char(x) == digit_char(y),
    ensures
        x == y,
{
}

/// Decimal renderings are injective.
pub proof fn lemma_digits_injective(a: nat, b: nat)
    requires
        spec_digits(a) == spec_digits(b),
    ensures
        a == b,
    decreases a,
{
    lemma_digits_props(a);
    lemma_digits_props(b);
    if a < 10 && b < 10 {
        assert(spec_digits(a)[0] == digit_char(a) && spec_digits(b)[0] == digit_char(b));
        lemma_digit_char_inj(a, b);
    } else if a >= 10 && b >= 10 {
        let da = spec_digits(a);
        let db = spec_digits(b);
        lemma_digits_props(a / 10);
        lemma_digits_props(b / 10);
        assert(da == spec_digits(a / 10) + seq![digit_char((a % 10) as nat)]);
        assert(db == spec_digits(b / 10) + seq![digit_char((b % 10) as nat)]);
        assert(da.last() == digit_char((a % 10) as nat));
        assert(db.last() == digit_char((b % 10) as nat));
        lemma_digit_char_inj((a % 10) as nat, (b % 10) as nat);
        assert(spec_digits(a / 10).len() == da.len() - 1);
        assert(spec_digits(b / 10).len() == db.len() - 1);
        assert(da.len() == db.len());
        assert forall|i: int| 0 <= i < da.len() - 1 implies #[trigger] spec_digits(a / 10)[i]
            == spec_digits(b / 10)[i] by {
            assert(spec_digits(a / 10)[i] == da[i]);
            assert(spec_digits(b / 10)[i] == db[i]);
        }
        assert(spec_digits(a / 10) =~= spec_digits(b / 10));
        lemma_digits_injective(a / 10, b / 10);
        assert(a == (a / 10) * 10 + a % 10) by (nonlinear_arith);
        assert(b == (b / 10) * 10 + b % 10) by (nonlinear_arith);
    }
}

/// A number rendered in decimal and closed by a colon: the building block of
/// the record encoding, readable back without ambiguity.
pub open spec fn enc_nat(n: nat) -> Seq<char> {
    spec_digits(n) + seq![':']
}

/// A string prefixed by its length: readable back without ambiguity.
pub open spec fn enc_str(s: Seq<char>) -> Seq<char> {
    enc_nat(s.len()) + s
}

/// Two encoded numbers followed by arbitrary text can only agree if the
/// numbers and the texts agree.
pub proof fn lemma_enc_nat_unambiguous(a: nat, r1: Seq<char>, b: nat, r2: Seq<char>)
    requires
        enc_nat(a) + r1 == enc_nat(b) + r2,
    ensures
        a == b,
        r1 == r2,
{
    lemma_digits_props(a);
    lemma_digits_props(b);
    let da = spec_digits(a);
    let db = spec_digits(b);
    let s = enc_nat(a) + r1;
    assert(s == enc_nat(b) + r2);
    if da.len() < db.len() {
        assert(s[da.len() as int] == ':');
        assert(s[da.len() as int] == db[da.len() as int]);
        assert(is_digit_char(db[da.len() as int]));
        assert(false);
    }
    if db.len() < da.len() {
        assert(s[db.len() as int] == ':');
        assert(s[db.len() as int] == da[db.len() as int]);
        assert(is_digit_char(da[db.len() as int]));
        assert(false);
    }
    assert(da =~= db) by {
        assert(forall|i: int| 0 <= i < da.len() ==> da[i] == s[i] && db[i] == s[i]);
    }
    lemma_digits_injective(a, b);
    assert(r1 =~= r2) by {
        assert(forall|i: int|
            0 <= i < r1.len() ==> r1[i] == s[da.len() + 1 + i] && r2[i] == s[da.len() + 1 + i]);
    }
}

/// Two encoded strings followed by arbitrary text can only agree if the
/// strings and the texts agree.
pub proof fn lemma_enc_str_unambiguous(s1: Seq<char>, r1: Seq<char>, s2: Seq<char>, r2: Seq<char>)
    requires
        enc_str(s1) + r1 == enc_str(s2) + r2,
    ensures
        s1 == s2,
        r1 == r2,
{
    assert(enc_nat(s1.len()) + (s1 + r1) =~= enc_str(s1) + r1);
    assert(enc_nat(s2.len()) + (s2 + r2) =~= enc_str(s2) + r2);
    lemma_enc_nat_unambiguous(s1.len(), s1 + r1, s2.len(), s2 + r2);
    assert(s1 =~= s2) by {
        assert(forall|i: int| 0 <= i < s1.len() ==> s1[i] == (s1 + r1)[i] && s2[i] == (s2 + r2)[i]);
    }
    assert(r1 =~= r2) by {
        assert(forall|i: int|
            0 <= i < r1.len() ==> r1[i] == (s1 + r1)[s1.len() + i] && r2[i] == (s2 + r2)[s2.len()
                + i]);
    }
}

/// One decimal digit as a string slice.
fn digit_str(d: u64) -> (r: &'static str)
    requires
        d < 10,
    ensures
        r@ == seq![digit_char(d as nat)],
{
    proof {
        reveal_strlit("0");
        reveal_strlit("1");
        reveal_strlit("2");
        reveal_strlit("3");
        reveal_strlit("4");
        reveal_strlit("5");
        reveal_strlit("6");
        reveal_strlit("7");
        reveal_strlit("8");
        reveal_strlit("9");
    }
    let r = if d == 0 {
        "0"
    } else if d == 1 {
        "1"
    } else if d == 2 {
        "2"
    } else if d == 3 {
        "3"
    } else if d == 4 {
        "4"
    } else if d == 5 {
        "5"
    } else if d == 6 {
        "6"
    } else if d == 7 {
        "7"
    } else if d == 8 {
        "8"
    } else {
        "9"
    };
    proof {
        assert(r@ =~= seq![digit_char(d as nat)]);
    }
    r
}

/// Render `n` in decimal.
pub fn u64_to_dec(n: u64) -> (r: String)
    ensures
        r@ == spec_digits(n as nat),
    decreases n,
{
    if n < 10 {
        digit_str(n).to_owned()
    } else {
        let mut s = u64_to_dec(n / 10);
        s.append(digit_str(n % 10));
        proof {
            assert(s@ =~= spec_digits(n as nat));
        }
        s
    }
}

/// Append `enc_nat(n)` to `out`.
pub fn push_enc_nat(out: &mut String, n: u64)
    ensures
        final(out)@ == old(out)@ + enc_nat(n as nat),
{
    let d = u64_to_dec(n);
    out.append(d.as_str());
    out.append(":");
    proof {
        reveal_strlit(":");
        assert(final(out)@ =~= old(out)@ + enc_nat(n as nat));
    }
}

/// Append `enc_str(s@)` to `out`.
pub fn push_enc_str(out: &mut String, s: &str)
    ensures
        final(out)@ == old(out)@ + enc_str(s@),
{
    let len = s.unicode_len();
    push_enc_nat(out, len as u64);
    out.append(s);
    proof {
        assert(final(out)@ =~= old(out)@ + enc_str(s@));
    }
}

} // verus!
