//! Character-level text operations: textual substitution and hex literals.

use vstd::prelude::*;

verus! {

/// Replaces, left to right and without overlap, every occurrence of `pat` in `s` by `rep`.
pub open spec fn replace_all(s: Seq<char>, pat: Seq<char>, rep: Seq<char>) -> Seq<char>
    decreases s.len(),
{
    if pat.len() == 0 || s.len() < pat.len() {
        s
    } else if s.subrange(0, pat.len() as int) == pat {
        rep + replace_all(s.subrange(pat.len() as int, s.len() as int), pat, rep)
    } else {
        seq![s[0]] + replace_all(s.subrange(1, s.len() as int), pat, rep)
    }
}

/// Applies the substitutions `(from, to)` of `subs` one after the other, first to last.
pub open spec fn substitute(s: Seq<char>, subs: Seq<(Seq<char>, Seq<char>)>) -> Seq<char>
    decreases subs.len(),
{
    if subs.len() == 0 {
        s
    } else {
        let last = subs.last();
        replace_all(substitute(s, subs.drop_last()), last.0, last.1)
    }
}

/// Whether `pat` occurs in `s` at position `i`.
pub open spec fn occurs_at(s: Seq<char>, i: int, pat: Seq<char>) -> bool {
    0 <= i && i + pat.len() <= s.len() && s.subrange(i, i + pat.len()) == pat
}

/// The characters of a string, as a vector.
pub fn chars_of(s: &str) -> (r: Vec<char>)
    ensures
        r@ == s@,
{
    let n = s.unicode_len();
    let mut r: Vec<char> = Vec::new();
    let mut i: usize = 0;
    while i < n
        invariant
            n == s@.len(),
            i <= n,
            r@ == s@.subrange(0, i as int),
        decreases n - i,
    {
        r.push(s.get_char(i));
        i = i + 1;
        assert(r@ =~= s@.subrange(0, i as int));
    }
    assert(r@ =~= s@);
    r
}

/// Relies on `String`'s `FromIterator<&char>`: the string holds the characters in order.
#[verifier::external_body]
pub fn string_of(v: &Vec<char>) -> (r: String)
    ensures
        r@ == v@,
{
    String::from_iter(v.iter())
}

/// The characters of `s` from `from` up to `to`.
pub fn chars_between(s: &Vec<char>, from: usize, to: usize) -> (r: Vec<char>)
    requires
        from <= to <= s@.len(),
    ensures
        r@ == s@.subrange(from as int, to as int),
{
    let mut r: Vec<char> = Vec::new();
    let mut i: usize = from;
    while i < to
        invariant
            from <= i <= to,
            to <= s@.len(),
            r@ == s@.subrange(from as int, i as int),
        decreases to - i,
    {
        r.push(s[i]);
        i = i + 1;
        assert(r@ =~= s@.subrange(from as int, i as int));
    }
    r
}

/// Appends the characters of `src` to `dst`.
pub fn push_all(dst: &mut Vec<char>, src: &Vec<char>)
    ensures
        final(dst)@ == old(dst)@ + src@,
{
    let ghost before = dst@;
    let mut i: usize = 0;
    while i < src.len()
        invariant
            i <= src@.len(),
            dst@ == before + src@.subrange(0, i as int),
        decreases src@.len() - i,
    {
        dst.push(src[i]);
        i = i + 1;
        assert(dst@ =~= before + src@.subrange(0, i as int));
    }
    assert(src@.subrange(0, src@.len() as int) =~= src@);
}

/// The lower-case hexadecimal digit of value `d`.
pub open spec fn hex_digit(d: nat) -> char {
    if d < 10 {
        (('0' as nat) + d) as char
    } else {
        (('a' as nat) + (d - 10)) as char
    }
}

/// The lower-case hexadecimal digits of `v`, without leading zeros (`0` for zero).
pub open spec fn hex_digits(v: nat) -> Seq<char>
    decreases v,
{
    if v < 16 {
        seq![hex_digit(v)]
    } else {
        hex_digits(v / 16).push(hex_digit(v % 16))
    }
}

/// `0x` followed by the lower-case hexadecimal digits of `v`.
pub open spec fn hex_literal(v: nat) -> Seq<char> {
    seq!['0', 'x'] + hex_digits(v)
}

pub(crate) fn hex_digit_exec(d: u64) -> (c: char)
    requires
        d < 16,
    ensures
        c == hex_digit(d as nat),
{
    if d < 10 {
        ((48u8 + d as u8) as char)
    } else {
        ((97u8 + (d - 10) as u8) as char)
    }
}

/// The text `0x...` of `v` in lower-case hexadecimal.
pub fn hex_literal_exec(v: u64) -> (r: Vec<char>)
    ensures
        r@ == hex_literal(v as nat),
{
    let mut digits: Vec<char> = Vec::new();
    let mut rest: u64 = v;
    // digits are collected least significant first
    while rest >= 16
        invariant
            hex_digits(v as nat) == hex_digits(rest as nat) + digits@.reverse(),
        decreases rest,
    {
        let d = hex_digit_exec(rest % 16);
        proof {
            let rev = digits@.reverse();
            assert(digits@.push(d).reverse() =~= seq![d] + rev);
            assert(hex_digits(rest as nat) == hex_digits((rest / 16) as nat).push(d));
            assert(hex_digits((rest / 16) as nat).push(d) + rev =~= hex_digits((rest / 16) as nat) + (seq![d] + rev));
        }
        digits.push(d);
        rest = rest / 16;
    }
    let mut r: Vec<char> = vec!['0', 'x', hex_digit_exec(rest)];
    let ghost head = r@;
    assert(head =~= seq!['0', 'x'] + hex_digits(rest as nat));
    let mut i: usize = digits.len();
    while i > 0
        invariant
            i <= digits@.len(),
            r@ == head + digits@.subrange(i as int, digits@.len() as int).reverse(),
        decreases i,
    {
        i = i - 1;
        let ghost prev = r@;
        r.push(digits[i]);
        proof {
            let tail = digits@.subrange(i as int + 1, digits@.len() as int);
            assert(digits@.subrange(i as int, digits@.len() as int) =~= seq![digits@[i as int]] + tail);
            assert((seq![digits@[i as int]] + tail).reverse() =~= tail.reverse().push(digits@[i as int]));
            assert(r@ =~= head + digits@.subrange(i as int, digits@.len() as int).reverse());
        }
    }
    assert(digits@.subrange(0, digits@.len() as int) =~= digits@);
    assert(r@ =~= seq!['0', 'x'] + (hex_digits(rest as nat) + digits@.reverse()));
    r
}

/// Whether `pat` occurs in `s` at position `i`.
pub fn occurs_at_exec(s: &Vec<char>, i: usize, pat: &Vec<char>) -> (r: bool)
    ensures
        r == occurs_at(s@, i as int, pat@),
{
    if pat.len() > s.len() || i > s.len() - pat.len() {
        return false;
    }
    let n = s.len();
    let mut j: usize = 0;
    while j < pat.len()
        invariant
            n == s@.len(),
            i + pat@.len() <= s@.len(),
            j <= pat@.len(),
            forall|k: int| 0 <= k < j ==> s@[i + k] == pat@[k],
        decreases pat@.len() - j,
    {
        assert(i + j < s@.len());
        if s[i + j] != pat[j] {
            assert(s@.subrange(i as int, i + pat@.len())[j as int] != pat@[j as int]);
            return false;
        }
        j = j + 1;
    }
    assert(s@.subrange(i as int, i + pat@.len()) =~= pat@);
    true
}

proof fn lemma_replace_step(s: Seq<char>, i: int, pat: Seq<char>, rep: Seq<char>)
    requires
        0 <= i <= s.len(),
        pat.len() > 0,
    ensures
        i + pat.len() <= s.len() && occurs_at(s, i, pat) ==> replace_all(s.subrange(i, s.len() as int), pat, rep)
            == rep + replace_all(s.subrange(i + pat.len(), s.len() as int), pat, rep),
        i < s.len() && !occurs_at(s, i, pat) ==> replace_all(s.subrange(i, s.len() as int), pat, rep)
            == seq![s[i]] + replace_all(s.subrange(i + 1, s.len() as int), pat, rep),
{
    let t = s.subrange(i, s.len() as int);
    if i + pat.len() <= s.len() {
        assert(t.subrange(0, pat.len() as int) =~= s.subrange(i, i + pat.len()));
        assert(t.subrange(pat.len() as int, t.len() as int) =~= s.subrange(i + pat.len(), s.len() as int));
    }
    if i < s.len() {
        assert(t.subrange(1, t.len() as int) =~= s.subrange(i + 1, s.len() as int));
    }
}

/// Replaces every occurrence of `pat` in `s` by `rep`, scanning left to right.
pub fn replace_all_exec(s: &Vec<char>, pat: &Vec<char>, rep: &Vec<char>) -> (r: Vec<char>)
    requires
        pat@.len() > 0,
    ensures
        r@ == replace_all(s@, pat@, rep@),
{
    let mut out: Vec<char> = Vec::new();
    let mut i: usize = 0;
    assert(s@.subrange(0, s@.len() as int) =~= s@);
    assert(out@ + s@ =~= s@);
    while i < s.len()
        invariant
            pat@.len() > 0,
            i <= s@.len(),
            out@ + replace_all(s@.subrange(i as int, s@.len() as int), pat@, rep@) == replace_all(s@, pat@, rep@),
        decreases s@.len() - i,
    {
        proof {
            lemma_replace_step(s@, i as int, pat@, rep@);
        }
        if occurs_at_exec(s, i, pat) {
            let ghost before = out@;
            let mut k: usize = 0;
            while k < rep.len()
                invariant
                    k <= rep@.len(),
                    out@ == before + rep@.subrange(0, k as int),
                decreases rep@.len() - k,
            {
                out.push(rep[k]);
                k = k + 1;
                assert(out@ =~= before + rep@.subrange(0, k as int));
            }
            assert(rep@.subrange(0, rep@.len() as int) =~= rep@);
            assert(out@ =~= before + rep@);
            i = i + pat.len();
        } else {
            let ghost before = out@;
            out.push(s[i]);
            assert(out@ =~= before + seq![s@[i as int]]);
            i = i + 1;
        }
    }
    proof {
        let t = s@.subrange(i as int, s@.len() as int);
        assert(t.len() == 0);
        assert(replace_all(t, pat@, rep@) == t);
        assert(out@ + t =~= out@);
    }
    out
}

/// Applies the substitutions `(from, to)` in order, each over the whole text.
pub fn substitute_exec(s: &Vec<char>, subs: &Vec<(Vec<char>, Vec<char>)>) -> (r: Vec<char>)
    requires
        forall|k: int| 0 <= k < subs@.len() ==> subs@[k].0@.len() > 0,
    ensures
        r@ == substitute(s@, subs@.map_values(|p: (Vec<char>, Vec<char>)| (p.0@, p.1@))),
{
    let ghost views = subs@.map_values(|p: (Vec<char>, Vec<char>)| (p.0@, p.1@));
    let mut cur: Vec<char> = s.clone();
    let mut i: usize = 0;
    while i < subs.len()
        invariant
            i <= subs@.len(),
            views == subs@.map_values(|p: (Vec<char>, Vec<char>)| (p.0@, p.1@)),
            forall|k: int| 0 <= k < subs@.len() ==> subs@[k].0@.len() > 0,
            cur@ == substitute(s@, views.subrange(0, i as int)),
        decreases subs@.len() - i,
    {
        let next = replace_all_exec(&cur, &subs[i].0, &subs[i].1);
        proof {
            let pre = views.subrange(0, i as int + 1);
            assert(pre.drop_last() =~= views.subrange(0, i as int));
        }
        cur = next;
        i = i + 1;
    }
    assert(views.subrange(0, i as int) =~= views);
    cur
}

} // verus!
