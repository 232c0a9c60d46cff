use vstd::prelude::*;

verus! {

/// Result of comparing two strings in lexicographic order.
#[derive(PartialEq, Eq, Structural, Clone, Copy, Debug)]
pub enum StrOrd {
    Less,
    Equal,
    Greater,
}

/// Strict lexicographic order on character sequences, comparing scalar values.
pub open spec fn lex_lt(a: Seq<char>, b: Seq<char>) -> bool
    decreases a.len(),
{
    if b.len() == 0 {
        false
    } else if a.len() == 0 {
        true
    } else if (a[0] as u32) < (b[0] as u32) {
        true
    } else if a[0] == b[0] {
        lex_lt(a.drop_first(), b.drop_first())
    } else {
        false
    }
}

/// `p` is a prefix of `s`.
pub open spec fn is_prefix(p: Seq<char>, s: Seq<char>) -> bool {
    p.len() <= s.len() && s.subrange(0, p.len() as int) == p
}

/// `p` is a suffix of `s`.
pub open spec fn is_suffix(p: Seq<char>, s: Seq<char>) -> bool {
    p.len() <= s.len() && s.subrange(s.len() - p.len(), s.len() as int) == p
}

proof fn lemma_char_cast_injective(a: char, b: char)
    ensures
        (a as u32) == (b as u32) ==> a == b,
{
    broadcast use vstd::utf8::char_u32_cast;

}

/// If `a` and `b` agree on their first `i` characters, what happens at
/// position `i` decides their lexicographic order.
proof fn lemma_lex_from_prefix(a: Seq<char>, b: Seq<char>, i: int)
    requires
        0 <= i <= a.len(),
        i <= b.len(),
        forall|j: int| 0 <= j < i ==> a[j] == b[j],
    ensures
        i < a.len() && i < b.len() && (a[i] as u32) < (b[i] as u32) ==> lex_lt(a, b),
        i == a.len() && i < b.len() ==> lex_lt(a, b),
        i == a.len() && i == b.len() ==> a =~= b,
    decreases i,
{
    if i == 0 {
    } else {
        lemma_lex_from_prefix(a.drop_first(), b.drop_first(), i - 1);
        assert(forall|j: int|
            0 <= j < i - 1 ==> a.drop_first()[j] == b.drop_first()[j]) by {
            assert(forall|j: int| 0 <= j < i - 1 ==> a.drop_first()[j] == a[j + 1]);
        }
        if i < a.len() && i < b.len() && (a[i] as u32) < (b[i] as u32) {
            assert(a.drop_first()[i - 1] == a[i]);
            assert(b.drop_first()[i - 1] == b[i]);
            assert(lex_lt(a.drop_first(), b.drop_first()));
        }
        if i == a.len() && i == b.len() {
            assert(a.drop_first() =~= b.drop_first());
            assert(a =~= b);
        }
    }
}

/// Lexicographic order is transitive.
pub proof fn lemma_lex_lt_trans(a: Seq<char>, b: Seq<char>, c: Seq<char>)
    requires
        lex_lt(a, b),
        lex_lt(b, c),
    ensures
        lex_lt(a, c),
    decreases a.len(),
{
    if a.len() == 0 || b.len() == 0 || c.len() == 0 {
    } else {
        lemma_char_cast_injective(a[0], b[0]);
        lemma_char_cast_injective(b[0], c[0]);
        lemma_char_cast_injective(a[0], c[0]);
        if a[0] == b[0] && b[0] == c[0] {
            lemma_lex_lt_trans(a.drop_first(), b.drop_first(), c.drop_first());
        }
    }
}

/// At most one of `lex_lt(a, b)`, `a == b`, `lex_lt(b, a)` holds, and at
/// least one does.
pub proof fn lemma_lex_lt_total(a: Seq<char>, b: Seq<char>)
    ensures
        lex_lt(a, b) ==> !lex_lt(b, a) && a != b,
        !lex_lt(a, b) && !lex_lt(b, a) ==> a =~= b,
    decreases a.len(),
{
    if a.len() == 0 || b.len() == 0 {
    } else {
        lemma_char_cast_injective(a[0], b[0]);
        if a[0] == b[0] {
            lemma_lex_lt_total(a.drop_first(), b.drop_first());
            if a.drop_first() =~= b.drop_first() {
                assert(forall|j: int|
                    1 <= j < a.len() ==> a[j] == a.drop_first()[j - 1] && b[j]
                        == b.drop_first()[j - 1]);
                assert(a =~= b);
            }
            if lex_lt(a, b) && a == b {
                assert(lex_lt(a.drop_first(), a.drop_first()));
            }
        }
    }
}

/// Compare two strings in lexicographic order on their characters.
pub fn str_cmp(a: &str, b: &str) -> (r: StrOrd)
    ensures
        r == StrOrd::Less <==> lex_lt(a@, b@),
        r == StrOrd::Equal <==> a@ == b@,
        r == StrOrd::Greater <==> lex_lt(b@, a@),
{
    let alen = a.unicode_len();
    let blen = b.unicode_len();
    let mut i: usize = 0;
    while i < alen && i < blen
        invariant
            i <= alen,
            i <= blen,
            alen == a@.len(),
            blen == b@.len(),
            forall|j: int| 0 <= j < i ==> a@[j] == b@[j],
        decreases alen - i,
    {
        let ca = a.get_char(i);
        let cb = b.get_char(i);
        if (ca as u32) < (cb as u32) {
            proof {
                lemma_lex_from_prefix(a@, b@, i as int);
                lemma_lex_lt_total(a@, b@);
            }
            return StrOrd::Less;
        }
        if (cb as u32) < (ca as u32) {
            proof {
                lemma_lex_from_prefix(b@, a@, i as int);
                lemma_lex_lt_total(a@, b@);
            }
            return StrOrd::Greater;
        }
        proof {
            lemma_char_cast_injective(ca, cb);
        }
        i = i + 1;
    }
    proof {
        lemma_lex_from_prefix(a@, b@, i as int);
        lemma_lex_from_prefix(b@, a@, i as int);
        lemma_lex_lt_total(a@, b@);
    }
    if alen < blen {
        StrOrd::Less
    } else if blen < alen {
        StrOrd::Greater
    } else {
        StrOrd::Equal
    }
}

/// Whether the characters of `a` and `b` are equal.
pub fn str_eq(a: &str, b: &str) -> (r: bool)
    ensures
        r <==> a@ == b@,
{
    matches!(str_cmp(a, b), StrOrd::Equal)
}

/// Whether `s` starts with the characters of `p`.
pub fn str_starts_with(s: &str, p: &str) -> (r: bool)
    ensures
        r <==> is_prefix(p@, s@),
{
    let slen = s.unicode_len();
    let plen = p.unicode_len();
    if plen > slen {
        return false;
    }
    let head = s.substring_char(0, plen);
    str_eq(head, p)
}

/// Whether `s` ends with the characters of `p`.
pub fn str_ends_with(s: &str, p: &str) -> (r: bool)
    ensures
        r <==> is_suffix(p@, s@),
{
    let slen = s.unicode_len();
    let plen = p.unicode_len();
    if plen > slen {
        return false;
    }
    let tail = s.substring_char(slen - plen, slen);
    str_eq(tail, p)
}

/// The characters of `s` from position `from` onwards, as an owned string.
pub fn str_suffix_from(s: &str, from: usize) -> (r: String)
    requires
        from <= s@.len(),
    ensures
        r@ == s@.subrange(from as int, s@.len() as int),
{
    let slen = s.unicode_len();
    let tail = s.substring_char(from, slen);
    tail.to_owned()
}

} // verus!
