//! Small verified string utilities the pipeline builds on: conversion
//! between strings and character vectors, decimal rendering of integers,
//! and the lexicographic order keys are sorted by.

use vstd::prelude::*;
use vstd::string::StrSliceExecFns;

verus! {

/// Relies on `String: FromIterator<char>`: collecting characters builds
/// the string of exactly those characters.
#[verifier::external_body]
pub(crate) fn chars_to_string(v: &Vec<char>) -> (r: String)
    ensures
        r@ == v@,
{
    v.iter().collect()
}

/// The characters of a string, gathered one by one.
pub fn string_to_chars(s: &str) -> (r: Vec<char>)
    ensures
        r@ == s@,
{
    let n = s.unicode_len();
    let mut r: Vec<char> = Vec::new();
    let mut i: usize = 0;
    while i < n
        invariant
            n == s@.len(),
            i <= n,
            r@ == s@.take(i as int),
        decreases n - i,
    {
        r.push(s.get_char(i));
        proof {
            assert(r@ =~= s@.take(i as int + 1));
        }
        i += 1;
    }
    proof {
        assert(s@.take(n as int) =~= s@);
    }
    r
}

/// The decimal digit character for `d`.
pub open spec fn spec_digit(d: int) -> char {
    if d == 0 {
        '0'
    } else if d == 1 {
        '1'
    } else if d == 2 {
        '2'
    } else if d == 3 {
        '3'
    } else if d == 4 {
        '4'
    } else if d == 5 {
        '5'
    } else if d == 6 {
        '6'
    } else if d == 7 {
        '7'
    } else if d == 8 {
        '8'
    } else {
        '9'
    }
}

/// The usual decimal rendering of a number, most significant digit first,
/// no leading zeros (except for zero itself).
pub open spec fn spec_decimal(n: nat) -> Seq<char>
    decreases n,
{
    if n < 10 {
        seq![spec_digit(n as int)]
    } else {
        spec_decimal(n / 10).push(spec_digit((n % 10) as int))
    }
}

fn digit_char(d: u64) -> (c: char)
    requires
        d < 10,
    ensures
        c == spec_digit(d as int),
{
    if d == 0 {
        '0'
    } else if d == 1 {
        '1'
    } else if d == 2 {
        '2'
    } else if d == 3 {
        '3'
    } else if d == 4 {
        '4'
    } else if d == 5 {
        '5'
    } else if d == 6 {
        '6'
    } else if d == 7 {
        '7'
    } else if d == 8 {
        '8'
    } else {
        '9'
    }
}

/// Decimal rendering of a number as a string.
pub fn u64_to_string(n: u64) -> (r: String)
    ensures
        r@ == spec_decimal(n as nat),
    decreases n,
{
    if n < 10 {
        let mut v: Vec<char> = Vec::new();
        v.push(digit_char(n));
        chars_to_string(&v)
    } else {
        let prefix = u64_to_string(n / 10);
        let mut v = string_to_chars(prefix.as_str());
        v.push(digit_char(n % 10));
        proof {
            assert(v@ =~= spec_decimal(n as nat));
        }
        chars_to_string(&v)
    }
}

/// Lexicographic order on character sequences: the order of keys in a
/// reducer's output. On UTF-8 text, code-point order agrees with byte
/// order.
pub open spec fn lex_le(a: Seq<char>, b: Seq<char>) -> bool
    decreases a.len(),
{
    if a.len() == 0 {
        true
    } else if b.len() == 0 {
        false
    } else if a[0] == b[0] {
        lex_le(a.skip(1), b.skip(1))
    } else {
        (a[0] as u32) < (b[0] as u32)
    }
}

/// Every key is at or below itself.
pub proof fn lemma_lex_refl(a: Seq<char>)
    ensures
        lex_le(a, a),
    decreases a.len(),
{
    if a.len() != 0 {
        lemma_lex_refl(a.skip(1));
    }
}

/// Any two keys compare one way or the other.
pub proof fn lemma_lex_total(a: Seq<char>, b: Seq<char>)
    ensures
        lex_le(a, b) || lex_le(b, a),
    decreases a.len(),
{
    if a.len() != 0 && b.len() != 0 {
        if a[0] == b[0] {
            lemma_lex_total(a.skip(1), b.skip(1));
        } else {
            lemma_char_code_distinct(a[0], b[0]);
        }
    }
}

/// Two keys below each other are equal.
pub proof fn lemma_lex_antisym(a: Seq<char>, b: Seq<char>)
    requires
        lex_le(a, b),
        lex_le(b, a),
    ensures
        a == b,
    decreases a.len(),
{
    if a.len() != 0 && b.len() != 0 && a[0] == b[0] {
        lemma_lex_antisym(a.skip(1), b.skip(1));
        assert(a =~= seq![a[0]] + a.skip(1));
        assert(b =~= seq![b[0]] + b.skip(1));
    }
}

/// The order is transitive.
pub proof fn lemma_lex_trans(a: Seq<char>, b: Seq<char>, c: Seq<char>)
    requires
        lex_le(a, b),
        lex_le(b, c),
    ensures
        lex_le(a, c),
    decreases a.len(),
{
    if a.len() != 0 && b.len() != 0 && c.len() != 0 {
        if a[0] == b[0] && b[0] == c[0] {
            lemma_lex_trans(a.skip(1), b.skip(1), c.skip(1));
        }
    }
}

/// Comparing sequences with a common prefix reduces to comparing what
/// follows it.
proof fn lemma_lex_common_prefix(a: Seq<char>, b: Seq<char>, i: int)
    requires
        0 <= i <= a.len(),
        i <= b.len(),
        forall|j: int| 0 <= j < i ==> a[j] == b[j],
    ensures
        lex_le(a, b) == lex_le(a.skip(i), b.skip(i)),
    decreases i,
{
    if i > 0 {
        lemma_lex_common_prefix(a, b, i - 1);
        assert(a.skip(i - 1).len() != 0);
        assert(a.skip(i - 1)[0] == b.skip(i - 1)[0]);
        assert(a.skip(i - 1).skip(1) =~= a.skip(i));
        assert(b.skip(i - 1).skip(1) =~= b.skip(i));
    } else {
        assert(a.skip(0) =~= a);
        assert(b.skip(0) =~= b);
    }
}

/// Whether `a` comes at or before `b` in lexicographic order.
pub fn chars_le(a: &Vec<char>, b: &Vec<char>) -> (r: bool)
    ensures
        r == lex_le(a@, b@),
{
    let mut i: usize = 0;
    loop
        invariant
            i <= a@.len(),
            i <= b@.len(),
            forall|j: int| 0 <= j < i ==> a@[j] == b@[j],
        decreases a@.len() - i,
    {
        proof {
            lemma_lex_common_prefix(a@, b@, i as int);
        }
        if i >= a.len() {
            proof {
                assert(a@.skip(i as int).len() == 0);
            }
            return true;
        }
        if i >= b.len() {
            proof {
                assert(b@.skip(i as int).len() == 0);
                assert(a@.skip(i as int).len() != 0);
            }
            return false;
        }
        let ca = a[i];
        let cb = b[i];
        if ca != cb {
            proof {
                assert(a@.skip(i as int)[0] == ca);
                assert(b@.skip(i as int)[0] == cb);
            }
            return (ca as u32) < (cb as u32);
        }
        i += 1;
    }
}

/// Whether string `a` comes at or before string `b`.
pub fn str_le(a: &str, b: &str) -> (r: bool)
    ensures
        r == lex_le(a@, b@),
{
    let va = string_to_chars(a);
    let vb = string_to_chars(b);
    chars_le(&va, &vb)
}

/// `a + b + c` for strings, by appending.
pub fn concat3(a: &str, b: &str, c: &str) -> (r: String)
    ensures
        r@ == a@ + b@ + c@,
{
    let mut r = a.to_owned();
    r.append(b);
    r.append(c);
    r
}

/// Distinct characters have distinct code points.
proof fn lemma_char_code_distinct(x: char, y: char)
    requires
        x != y,
    ensures
        x as u32 != y as u32,
{
}

/// Whether a character counts as alphabetic: a property of the character
/// alone, the same in every process.
pub uninterp spec fn is_alpha(c: char) -> bool;

/// Relies on `char::is_alphabetic`: membership of the character in
/// Unicode's Alphabetic set.
#[verifier::external_body]
fn char_is_alphabetic(c: char) -> (r: bool)
    ensures
        r == is_alpha(c),
{
    c.is_alphabetic()
}

/// The maximal alphabetic runs of a text, scanned left to right with the
/// run collected so far.
pub open spec fn split_words(s: Seq<char>, cur: Seq<char>) -> Seq<Seq<char>>
    decreases s.len(),
{
    if s.len() == 0 {
        if cur.len() > 0 {
            seq![cur]
        } else {
            Seq::empty()
        }
    } else if is_alpha(s[0]) {
        split_words(s.skip(1), cur.push(s[0]))
    } else if cur.len() > 0 {
        seq![cur] + split_words(s.skip(1), Seq::empty())
    } else {
        split_words(s.skip(1), Seq::empty())
    }
}

/// The words of a text: its maximal alphabetic runs, in order.
pub open spec fn words_of(s: Seq<char>) -> Seq<Seq<char>> {
    split_words(s, Seq::empty())
}

/// Split a text into its words: the non-empty runs between non-alphabetic
/// characters.
pub fn split_alphabetic(s: &str) -> (r: Vec<String>)
    ensures
        r.deep_view() == words_of(s@),
{
    let cs = string_to_chars(s);
    let mut out: Vec<String> = Vec::new();
    let mut cur: Vec<char> = Vec::new();
    let mut i: usize = 0;
    proof {
        assert(out.deep_view() =~= Seq::<Seq<char>>::empty());
        assert(s@.skip(0) =~= s@);
        assert(out.deep_view() + split_words(s@, Seq::<char>::empty()) =~= split_words(
            s@,
            Seq::<char>::empty(),
        ));
    }
    while i < cs.len()
        invariant
            cs@ == s@,
            i <= cs@.len(),
            out.deep_view() + split_words(s@.skip(i as int), cur@) == words_of(s@),
        decreases cs@.len() - i,
    {
        let c = cs[i];
        let ghost old_cur = cur@;
        let ghost before = out.deep_view();
        proof {
            assert(s@.skip(i as int)[0] == c);
            assert(s@.skip(i as int).skip(1) =~= s@.skip(i as int + 1));
        }
        if char_is_alphabetic(c) {
            cur.push(c);
            proof {
                assert(split_words(s@.skip(i as int), old_cur) == split_words(
                    s@.skip(i as int + 1),
                    cur@,
                ));
            }
        } else {
            if cur.len() > 0 {
                out.push(chars_to_string(&cur));
                cur.clear();
                proof {
                    assert(out.deep_view() =~= before.push(old_cur));
                    assert(split_words(s@.skip(i as int), old_cur) == seq![old_cur] + split_words(
                        s@.skip(i as int + 1),
                        cur@,
                    ));
                    assert(before.push(old_cur) + split_words(s@.skip(i as int + 1), cur@)
                        =~= before + (seq![old_cur] + split_words(s@.skip(i as int + 1), cur@)));
                }
            } else {
                proof {
                    assert(old_cur =~= Seq::<char>::empty());
                    assert(split_words(s@.skip(i as int), old_cur) == split_words(
                        s@.skip(i as int + 1),
                        cur@,
                    ));
                }
            }
        }
        i += 1;
    }
    proof {
        assert(s@.skip(s@.len() as int).len() == 0);
    }
    if cur.len() > 0 {
        let ghost before = out.deep_view();
        out.push(chars_to_string(&cur));
        proof {
            assert(out.deep_view() =~= before.push(cur@));
            assert(before.push(cur@) =~= before + seq![cur@]);
            assert(split_words(s@.skip(s@.len() as int), cur@) == seq![cur@]);
        }
    } else {
        proof {
            assert(split_words(s@.skip(s@.len() as int), cur@) =~= Seq::<Seq<char>>::empty());
            assert(out.deep_view() + Seq::<Seq<char>>::empty() =~= out.deep_view());
        }
    }
    proof {
        assert(out.deep_view() =~= words_of(s@));
    }
    out
}

} // verus!
