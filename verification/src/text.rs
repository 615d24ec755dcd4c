//! Byte-level text utilities: whitespace trimming, prefix and suffix tests,
//! and decimal digits. Text is handled as UTF-8 bytes throughout the
//! library; byte-wise operations and comparisons agree with the
//! corresponding text operations, since UTF-8 preserves ordering and no
//! multi-byte sequence contains an ASCII byte.

use vstd::prelude::*;

verus! {

/// ASCII whitespace, the single-byte part of the class trimming removes.
pub open spec fn is_space(b: u8) -> bool {
    b == 32 || b == 9 || b == 10 || b == 13 || b == 11 || b == 12
}

pub fn byte_is_space(b: u8) -> (r: bool)
    ensures
        r == is_space(b),
{
    b == 32 || b == 9 || b == 10 || b == 13 || b == 11 || b == 12
}

/// The two-byte UTF-8 encodings of the non-ASCII whitespace that decoding
/// a legacy single-byte feed can produce: the next-line and no-break-space
/// characters. Trimming removes these as well, as trimming decoded text
/// does.
pub open spec fn is_space_pair(b0: u8, b1: u8) -> bool {
    b0 == 194 && (b1 == 133 || b1 == 160)
}

pub open spec fn spec_ltrim(s: Seq<u8>) -> Seq<u8>
    decreases s.len(),
{
    if s.len() >= 2 && is_space_pair(s[0], s[1]) {
        spec_ltrim(s.subrange(2, s.len() as int))
    } else if s.len() > 0 && is_space(s[0]) {
        spec_ltrim(s.drop_first())
    } else {
        s
    }
}

pub open spec fn spec_rtrim(s: Seq<u8>) -> Seq<u8>
    decreases s.len(),
{
    if s.len() >= 2 && is_space_pair(s[s.len() - 2], s.last()) {
        spec_rtrim(s.subrange(0, s.len() - 2))
    } else if s.len() > 0 && is_space(s.last()) {
        spec_rtrim(s.drop_last())
    } else {
        s
    }
}

/// What trimming surrounding whitespace from `s` leaves.
pub open spec fn spec_trim(s: Seq<u8>) -> Seq<u8> {
    spec_rtrim(spec_ltrim(s))
}

/// Removes leading and trailing whitespace: the ASCII class and the two
/// two-byte encodings above.
pub fn trim(s: &[u8]) -> (r: Vec<u8>)
    ensures
        r@ == spec_trim(s@),
{
    let ghost whole: Seq<u8> = s@;
    proof {
        assert(s@.subrange(0, s@.len() as int) =~= s@);
    }
    let mut lo: usize = 0;
    loop
        invariant_except_break
            lo <= s@.len(),
            spec_ltrim(whole) == spec_ltrim(s@.subrange(lo as int, s@.len() as int)),
        ensures
            lo <= s@.len(),
            spec_ltrim(whole) == s@.subrange(lo as int, s@.len() as int),
        decreases s@.len() - lo,
    {
        let ghost cur = s@.subrange(lo as int, s@.len() as int);
        proof {
            if lo < s@.len() {
                assert(cur[0] == s@[lo as int]);
            }
            if lo + 1 < s@.len() {
                assert(cur[1] == s@[lo as int + 1]);
            }
        }
        if lo < s.len() && lo + 1 < s.len() && s[lo] == 194 && (s[lo + 1] == 133 || s[lo + 1]
            == 160) {
            proof {
                assert(cur.subrange(2, cur.len() as int) =~= s@.subrange(
                    lo as int + 2,
                    s@.len() as int,
                ));
            }
            lo = lo + 2;
        } else if lo < s.len() && byte_is_space(s[lo]) {
            proof {
                assert(cur.drop_first() =~= s@.subrange(lo as int + 1, s@.len() as int));
            }
            lo = lo + 1;
        } else {
            proof {
                assert(spec_ltrim(cur) == cur);
            }
            break ;
        }
    }
    let mut hi: usize = s.len();
    loop
        invariant_except_break
            lo <= hi <= s@.len(),
            spec_ltrim(whole) == s@.subrange(lo as int, s@.len() as int),
            spec_rtrim(spec_ltrim(whole)) == spec_rtrim(s@.subrange(lo as int, hi as int)),
        ensures
            lo <= hi <= s@.len(),
            spec_trim(whole) == s@.subrange(lo as int, hi as int),
        decreases hi,
    {
        let ghost cur = s@.subrange(lo as int, hi as int);
        proof {
            if hi > lo {
                assert(cur.last() == s@[hi - 1]);
            }
            if hi - lo >= 2 {
                assert(cur[cur.len() - 2] == s@[hi - 2]);
            }
        }
        if hi - lo >= 2 && s[hi - 2] == 194 && (s[hi - 1] == 133 || s[hi - 1] == 160) {
            proof {
                assert(cur.subrange(0, cur.len() - 2) =~= s@.subrange(lo as int, hi as int - 2));
            }
            hi = hi - 2;
        } else if hi > lo && byte_is_space(s[hi - 1]) {
            proof {
                assert(cur.drop_last() =~= s@.subrange(lo as int, hi as int - 1));
            }
            hi = hi - 1;
        } else {
            proof {
                assert(spec_rtrim(cur) == cur);
            }
            break ;
        }
    }
    let mut r: Vec<u8> = Vec::new();
    r.extend_from_slice(&s[lo..hi]);
    proof {
        assert(r@ =~= spec_trim(whole));
    }
    r
}

/// Whether `p` is a prefix of `s`.
pub open spec fn is_prefix(p: Seq<u8>, s: Seq<u8>) -> bool {
    p.len() <= s.len() && s.subrange(0, p.len() as int) == p
}

/// Whether `p` is a suffix of `s`.
pub open spec fn is_suffix(p: Seq<u8>, s: Seq<u8>) -> bool {
    p.len() <= s.len() && s.subrange(s.len() - p.len(), s.len() as int) == p
}

pub fn has_prefix(s: &[u8], p: &[u8]) -> (r: bool)
    ensures
        r == is_prefix(p@, s@),
{
    if p.len() > s.len() {
        return false;
    }
    let mut i: usize = 0;
    while i < p.len()
        invariant
            i <= p@.len() <= s@.len(),
            forall|j: int| 0 <= j < i ==> s@[j] == p@[j],
        decreases p@.len() - i,
    {
        if s[i] != p[i] {
            proof {
                assert(s@.subrange(0, p@.len() as int)[i as int] != p@[i as int]);
            }
            return false;
        }
        i = i + 1;
    }
    proof {
        assert(s@.subrange(0, p@.len() as int) =~= p@);
    }
    true
}

pub fn has_suffix(s: &[u8], p: &[u8]) -> (r: bool)
    ensures
        r == is_suffix(p@, s@),
{
    if p.len() > s.len() {
        return false;
    }
    let base: usize = s.len() - p.len();
    let mut i: usize = 0;
    while i < p.len()
        invariant
            i <= p@.len() <= s@.len(),
            s@.len() <= usize::MAX,
            base == s@.len() - p@.len(),
            forall|j: int| 0 <= j < i ==> s@[base + j] == p@[j],
        decreases p@.len() - i,
    {
        if s[base + i] != p[i] {
            proof {
                assert(s@.subrange(s@.len() - p@.len(), s@.len() as int)[i as int] != p@[
                    i as int
                ]);
            }
            return false;
        }
        i = i + 1;
    }
    proof {
        assert(s@.subrange(s@.len() - p@.len(), s@.len() as int) =~= p@);
    }
    true
}

/// An ASCII decimal digit.
pub open spec fn is_digit(b: u8) -> bool {
    48 <= b <= 57
}

pub fn byte_is_digit(b: u8) -> (r: bool)
    ensures
        r == is_digit(b),
{
    48 <= b && b <= 57
}

/// Whether every byte of `s` is a decimal digit.
pub open spec fn all_digits(s: Seq<u8>) -> bool {
    forall|i: int| 0 <= i < s.len() ==> is_digit(#[trigger] s[i])
}

/// The number denoted by a big-endian string of decimal digits.
pub open spec fn digits_val(s: Seq<u8>) -> int
    decreases s.len(),
{
    if s.len() == 0 {
        0
    } else {
        digits_val(s.drop_last()) * 10 + (s.last() - 48)
    }
}

/// Digit strings of up to four digits denote numbers below 10000.
pub proof fn lemma_digits_val_bound(s: Seq<u8>)
    requires
        all_digits(s),
        s.len() <= 4,
    ensures
        0 <= digits_val(s),
        s.len() <= 1 ==> digits_val(s) < 10,
        s.len() <= 2 ==> digits_val(s) < 100,
        s.len() <= 3 ==> digits_val(s) < 1000,
        digits_val(s) < 10000,
    decreases s.len(),
{
    if s.len() > 0 {
        assert(forall|i: int| 0 <= i < s.drop_last().len() ==> is_digit(
            #[trigger] s.drop_last()[i],
        ));
        lemma_digits_val_bound(s.drop_last());
    }
}

/// Reads the fixed-width decimal number `s[from..from + width]`; the caller
/// guarantees the bytes are digits and the width is at most four.
pub fn parse_digits(s: &[u8], from: usize, width: usize) -> (r: u16)
    requires
        from + width <= s@.len(),
        width <= 4,
        all_digits(s@.subrange(from as int, from as int + width as int)),
    ensures
        r as int == digits_val(s@.subrange(from as int, from as int + width as int)),
{
    let ghost field: Seq<u8> = s@.subrange(from as int, from as int + width as int);
    // reading the length brings the slice's length bound into scope
    let _len: usize = s.len();
    assert(s@.len() <= usize::MAX);
    let mut i: usize = 0;
    let mut v: u16 = 0;
    while i < width
        invariant
            i <= width,
            from + width <= s@.len(),
            s@.len() <= usize::MAX,
            width <= 4,
            field == s@.subrange(from as int, from as int + width as int),
            all_digits(field),
            v as int == digits_val(field.subrange(0, i as int)),
        decreases width - i,
    {
        proof {
            let pre = field.subrange(0, i as int + 1);
            assert(pre.drop_last() =~= field.subrange(0, i as int));
            assert(pre.last() == field[i as int]);
            lemma_digits_val_bound(field.subrange(0, i as int));
            lemma_digits_val_bound(pre);
            assert(field[i as int] == s@[from + i]);
        }
        let b: u8 = s[from + i];
        v = v * 10 + (b - 48) as u16;
        i = i + 1;
    }
    proof {
        assert(field.subrange(0, width as int) =~= field);
    }
    v
}

/// The shortest decimal digit string for `v`.
pub open spec fn dec_digits(v: nat) -> Seq<u8>
    decreases v,
{
    if v < 10 {
        seq![(48 + v) as u8]
    } else {
        dec_digits(v / 10).push((48 + v % 10) as u8)
    }
}

/// Appends the decimal digits of `v`.
pub fn push_dec(out: &mut Vec<u8>, v: u32)
    ensures
        final (out)@ == old(out)@ + dec_digits(v as nat),
    decreases v,
{
    if v < 10 {
        out.push(48 + v as u8);
        proof {
            assert(final (out)@ =~= old(out)@ + dec_digits(v as nat));
        }
    } else {
        push_dec(out, v / 10);
        out.push(48 + (v % 10) as u8);
        proof {
            assert(final (out)@ =~= old(out)@ + dec_digits(v as nat));
        }
    }
}

/// The decimal digits of `v`, zero-padded on the left to `width` bytes;
/// meaningful only while `v` fits in `width` digits.
pub open spec fn dec_pad(v: nat, width: nat) -> Seq<u8>
    decreases width,
{
    if width == 0 {
        Seq::<u8>::empty()
    } else {
        dec_pad(v / 10, (width - 1) as nat).push((48 + v % 10) as u8)
    }
}

/// Lexicographic order on byte strings: a proper prefix comes first, and
/// otherwise the first differing byte decides. On UTF-8 text this is the
/// scalar-value order of the decoded text, the order Rust's own string
/// comparison uses.
pub open spec fn lex_le(a: Seq<u8>, b: Seq<u8>) -> bool
    decreases a.len(),
{
    if a.len() == 0 {
        true
    } else if b.len() == 0 {
        false
    } else if a[0] != b[0] {
        a[0] < b[0]
    } else {
        lex_le(a.drop_first(), b.drop_first())
    }
}

/// Strict lexicographic order.
pub open spec fn lex_lt(a: Seq<u8>, b: Seq<u8>) -> bool {
    lex_le(a, b) && a != b
}

pub proof fn lemma_lex_le_reflexive(a: Seq<u8>)
    ensures
        lex_le(a, a),
    decreases a.len(),
{
    if a.len() > 0 {
        lemma_lex_le_reflexive(a.drop_first());
    }
}

pub proof fn lemma_lex_le_total(a: Seq<u8>, b: Seq<u8>)
    ensures
        lex_le(a, b) || lex_le(b, a),
    decreases a.len(),
{
    if a.len() > 0 && b.len() > 0 && a[0] == b[0] {
        lemma_lex_le_total(a.drop_first(), b.drop_first());
    }
}

pub proof fn lemma_lex_le_antisymmetric(a: Seq<u8>, b: Seq<u8>)
    requires
        lex_le(a, b),
        lex_le(b, a),
    ensures
        a == b,
    decreases a.len(),
{
    if a.len() == 0 {
        assert(a =~= b);
    } else {
        lemma_lex_le_antisymmetric(a.drop_first(), b.drop_first());
        assert(a =~= Seq::empty().push(a[0]) + a.drop_first());
        assert(b =~= Seq::empty().push(b[0]) + b.drop_first());
    }
}

pub proof fn lemma_lex_le_transitive(a: Seq<u8>, b: Seq<u8>, c: Seq<u8>)
    requires
        lex_le(a, b),
        lex_le(b, c),
    ensures
        lex_le(a, c),
    decreases a.len(),
{
    if a.len() > 0 && b.len() > 0 && c.len() > 0 && a[0] == b[0] && b[0] == c[0] {
        lemma_lex_le_transitive(a.drop_first(), b.drop_first(), c.drop_first());
    }
}

/// The lexicographic order as a relation value, for the sorting lemmas.
pub open spec fn lex_le_fn() -> spec_fn(Seq<u8>, Seq<u8>) -> bool {
    |a: Seq<u8>, b: Seq<u8>| lex_le(a, b)
}

/// The lexicographic order is a total ordering, so a sorted list of byte
/// strings is uniquely determined by its contents.
pub proof fn lemma_lex_le_total_ordering()
    ensures
        vstd::relations::total_ordering(lex_le_fn()),
{
    let leq = lex_le_fn();
    assert forall|a: Seq<u8>| #[trigger] leq(a, a) by {
        lemma_lex_le_reflexive(a);
    }
    assert forall|a: Seq<u8>, b: Seq<u8>| #[trigger] leq(a, b) && #[trigger] leq(b, a)
        implies a == b by {
        lemma_lex_le_antisymmetric(a, b);
    }
    assert forall|a: Seq<u8>, b: Seq<u8>, c: Seq<u8>|
        #[trigger] leq(a, b) && #[trigger] leq(b, c) implies leq(a, c) by {
        lemma_lex_le_transitive(a, b, c);
    }
    assert forall|a: Seq<u8>, b: Seq<u8>| #![trigger leq(a, b)] leq(a, b) || leq(b, a) by {
        lemma_lex_le_total(a, b);
    }
}

pub proof fn lemma_lex_lt_transitive(a: Seq<u8>, b: Seq<u8>, c: Seq<u8>)
    requires
        lex_lt(a, b),
        lex_lt(b, c),
    ensures
        lex_lt(a, c),
{
    lemma_lex_le_transitive(a, b, c);
    if a == c {
        lemma_lex_le_antisymmetric(a, b);
    }
}

/// Compares byte strings in the lexicographic order.
pub fn bytes_le(a: &[u8], b: &[u8]) -> (r: bool)
    ensures
        r == lex_le(a@, b@),
{
    proof {
        assert(a@.subrange(0, a@.len() as int) =~= a@);
        assert(b@.subrange(0, b@.len() as int) =~= b@);
    }
    let mut i: usize = 0;
    while i < a.len() && i < b.len()
        invariant
            i <= a@.len(),
            i <= b@.len(),
            lex_le(a@, b@) == lex_le(
                a@.subrange(i as int, a@.len() as int),
                b@.subrange(i as int, b@.len() as int),
            ),
        decreases a@.len() - i,
    {
        let ghost sub_a = a@.subrange(i as int, a@.len() as int);
        let ghost sub_b = b@.subrange(i as int, b@.len() as int);
        proof {
            assert(sub_a[0] == a@[i as int]);
            assert(sub_b[0] == b@[i as int]);
        }
        if a[i] != b[i] {
            return a[i] < b[i];
        }
        proof {
            assert(sub_a.drop_first() =~= a@.subrange(i as int + 1, a@.len() as int));
            assert(sub_b.drop_first() =~= b@.subrange(i as int + 1, b@.len() as int));
        }
        i = i + 1;
    }
    proof {
        let sub_a = a@.subrange(i as int, a@.len() as int);
        let sub_b = b@.subrange(i as int, b@.len() as int);
        if i < b@.len() {
            assert(sub_a.len() == 0);
        } else if i < a@.len() {
            assert(sub_b.len() == 0 && sub_a.len() > 0);
        }
    }
    a.len() <= b.len()
}

/// Appends `v` as exactly `width` decimal digits, zero-padded.
pub fn push_dec_pad(out: &mut Vec<u8>, v: u32, width: u32)
    requires
        width <= 9,
    ensures
        final (out)@ == old(out)@ + dec_pad(v as nat, width as nat),
    decreases width,
{
    if width == 0 {
        proof {
            assert(old(out)@ + dec_pad(v as nat, 0) =~= old(out)@);
        }
    } else {
        push_dec_pad(out, v / 10, width - 1);
        out.push(48 + (v % 10) as u8);
        proof {
            assert(final (out)@ =~= old(out)@ + dec_pad(v as nat, width as nat));
        }
    }
}

} // verus!
