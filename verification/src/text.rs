//! Character-level helpers of the text formats: whitespace, case, trimming, splitting and
//! small decimal numbers.

use vstd::prelude::*;

verus! {

/// `std::string::String::push` appends one character.
pub assume_specification[ std::string::String::push ](s: &mut String, ch: char)
    ensures
        final(s)@ == old(s)@.push(ch),
;

/// Unicode white space (the characters `char::is_whitespace` accepts).
pub open spec fn is_ws(c: char) -> bool {
    ||| c == ' '
    ||| ('\t' <= c && c <= '\r')
    ||| c == '\u{85}'
    ||| c == '\u{a0}'
    ||| c == '\u{1680}'
    ||| ('\u{2000}' <= c && c <= '\u{200a}')
    ||| c == '\u{2028}'
    ||| c == '\u{2029}'
    ||| c == '\u{202f}'
    ||| c == '\u{205f}'
    ||| c == '\u{3000}'
}

/// ASCII lower case of `c`; other characters are unchanged.
pub open spec fn lower_of(c: char) -> char {
    if 'A' <= c && c <= 'Z' {
        ((c as u32) + 32) as char
    } else {
        c
    }
}

/// ASCII lower case of every character of `s`.
pub open spec fn lower_seq(s: Seq<char>) -> Seq<char> {
    s.map_values(|c: char| lower_of(c))
}

/// `s` without its leading white space.
pub open spec fn trim_start(s: Seq<char>) -> Seq<char>
    decreases s.len(),
{
    if s.len() > 0 && is_ws(s[0]) {
        trim_start(s.drop_first())
    } else {
        s
    }
}

/// `s` without its trailing white space.
pub open spec fn trim_end(s: Seq<char>) -> Seq<char>
    decreases s.len(),
{
    if s.len() > 0 && is_ws(s.last()) {
        trim_end(s.drop_last())
    } else {
        s
    }
}

/// `s` without leading and trailing white space.
pub open spec fn trim(s: Seq<char>) -> Seq<char> {
    trim_end(trim_start(s))
}

/// The fields of `s` between the separators `sep` (one more than the separators).
pub open spec fn split_on(s: Seq<char>, sep: char) -> Seq<Seq<char>>
    decreases s.len(),
{
    if s.len() == 0 {
        seq![Seq::empty()]
    } else {
        let p = split_on(s.drop_last(), sep);
        if s.last() == sep {
            p.push(Seq::empty())
        } else {
            p.update(p.len() - 1, p.last().push(s.last()))
        }
    }
}

/// The maximal runs of non-white-space characters of `s`.
pub open spec fn words(s: Seq<char>) -> Seq<Seq<char>>
    decreases s.len(),
{
    if s.len() == 0 {
        Seq::empty()
    } else {
        let p = words(s.drop_last());
        if is_ws(s.last()) {
            p
        } else if s.len() >= 2 && !is_ws(s[s.len() - 2]) {
            p.update(p.len() - 1, p.last().push(s.last()))
        } else {
            p.push(seq![s.last()])
        }
    }
}

/// The value of a decimal digit, or `-1`.
pub open spec fn digit_of(c: char) -> int {
    if '0' <= c && c <= '9' {
        (c as u32) - ('0' as u32)
    } else {
        -1
    }
}

/// The value of a one- or two-digit decimal number, or `-1`.
pub open spec fn num_of(f: Seq<char>) -> int {
    if f.len() == 1 && digit_of(f[0]) >= 0 {
        digit_of(f[0])
    } else if f.len() == 2 && digit_of(f[0]) >= 0 && digit_of(f[1]) >= 0 {
        10 * digit_of(f[0]) + digit_of(f[1])
    } else {
        -1
    }
}

/// The digit character of `d` (`0..10`).
pub open spec fn digit_char(d: int) -> char {
    ((d + ('0' as u32)) as u32) as char
}

/// The decimal text of `n`.
pub open spec fn dec_text(n: nat) -> Seq<char>
    decreases n,
{
    if n < 10 {
        seq![digit_char(n as int)]
    } else {
        dec_text(n / 10).push(digit_char((n % 10) as int))
    }
}

/// Whether `c` is white space.
pub fn is_ws_char(c: char) -> (r: bool)
    ensures
        r == is_ws(c),
{
    c == ' ' || ('\t' <= c && c <= '\r') || c == '\u{85}' || c == '\u{a0}' || c == '\u{1680}' || (
    '\u{2000}' <= c && c <= '\u{200a}') || c == '\u{2028}' || c == '\u{2029}' || c == '\u{202f}'
        || c == '\u{205f}' || c == '\u{3000}'
}

/// ASCII lower case of `c`.
pub fn lower(c: char) -> (r: char)
    ensures
        r == lower_of(c),
{
    if 'A' <= c && c <= 'Z' {
        ((c as u8) + 32) as char
    } else {
        c
    }
}

/// The characters of `s`.
pub fn chars_of(s: &str) -> (v: Vec<char>)
    ensures
        v@ == s@,
{
    let n = s.unicode_len();
    let mut v: Vec<char> = Vec::new();
    let mut i: usize = 0;
    while i < n
        invariant
            i <= n,
            n == s@.len(),
            v@ == s@.take(i as int),
        decreases n - i,
    {
        let c = s.get_char(i);
        v.push(c);
        proof {
            assert(s@.take(i + 1) =~= s@.take(i as int).push(c));
        }
        i = i + 1;
    }
    proof {
        assert(s@.take(n as int) =~= s@);
    }
    v
}

/// The bounds of `s[lo..hi]` without leading and trailing white space.
pub fn trim_range(s: &Vec<char>, lo: usize, hi: usize) -> (r: (usize, usize))
    requires
        lo <= hi <= s.len(),
    ensures
        lo <= r.0 <= r.1 <= hi,
        s@.subrange(r.0 as int, r.1 as int) == trim(s@.subrange(lo as int, hi as int)),
{
    let mut a: usize = lo;
    while a < hi && is_ws_char(s[a])
        invariant
            lo <= a <= hi <= s.len(),
            trim_start(s@.subrange(lo as int, hi as int)) == trim_start(s@.subrange(a as int, hi as int)),
        decreases hi - a,
    {
        proof {
            assert(s@.subrange(a as int, hi as int).drop_first() =~= s@.subrange(a + 1, hi as int));
        }
        a = a + 1;
    }
    let mut b: usize = hi;
    while b > a && is_ws_char(s[b - 1])
        invariant
            lo <= a <= b <= hi <= s.len(),
            trim(s@.subrange(lo as int, hi as int)) == trim_end(s@.subrange(a as int, b as int)),
        decreases b,
    {
        proof {
            assert(s@.subrange(a as int, b as int).drop_last() =~= s@.subrange(a as int, b - 1));
        }
        b = b - 1;
    }
    (a, b)
}

/// Whether `s[lo..hi]`, lower-cased, is `word`.
pub fn eq_lower(s: &Vec<char>, lo: usize, hi: usize, word: &[char]) -> (r: bool)
    requires
        lo <= hi <= s.len(),
    ensures
        r == (lower_seq(s@.subrange(lo as int, hi as int)) == word@),
{
    if hi - lo != word.len() {
        proof {
            assert(lower_seq(s@.subrange(lo as int, hi as int)).len() != word@.len());
        }
        return false;
    }
    let mut i: usize = 0;
    while i < word.len()
        invariant
            i <= word.len(),
            hi - lo == word.len(),
            lo <= hi <= s.len(),
            forall|k: int| 0 <= k < i ==> lower_of(s@[lo + k]) == word@[k],
        decreases word.len() - i,
    {
        if lower(s[lo + i]) != word[i] {
            proof {
                assert(lower_seq(s@.subrange(lo as int, hi as int))[i as int] != word@[i as int]);
            }
            return false;
        }
        i = i + 1;
    }
    proof {
        assert(lower_seq(s@.subrange(lo as int, hi as int)) =~= word@);
    }
    true
}

/// The fields of `s[lo..hi]` between separators `sep`, as bounds into `s`.
pub fn split_bounds(s: &Vec<char>, lo: usize, hi: usize, sep: char) -> (r: Vec<(usize, usize)>)
    requires
        lo <= hi <= s.len(),
    ensures
        r.len() == split_on(s@.subrange(lo as int, hi as int), sep).len(),
        forall|k: int|
            0 <= k < r.len() ==> lo <= (#[trigger] r[k]).0 <= r[k].1 <= hi && s@.subrange(
                r[k].0 as int,
                r[k].1 as int,
            ) == split_on(s@.subrange(lo as int, hi as int), sep)[k],
{
    let mut done: Vec<(usize, usize)> = Vec::new();
    let mut start = lo;
    let mut i = lo;
    proof {
        assert(s@.subrange(lo as int, lo as int) =~= Seq::<char>::empty());
    }
    while i < hi
        invariant
            lo <= start <= i <= hi <= s.len(),
            split_on(s@.subrange(lo as int, i as int), sep).len() == done.len() + 1,
            split_on(s@.subrange(lo as int, i as int), sep).last() == s@.subrange(
                start as int,
                i as int,
            ),
            forall|k: int|
                0 <= k < done.len() ==> lo <= (#[trigger] done[k]).0 <= done[k].1 <= i
                    && s@.subrange(done[k].0 as int, done[k].1 as int) == split_on(
                    s@.subrange(lo as int, i as int),
                    sep,
                )[k],
        decreases hi - i,
    {
        let ghost prev = split_on(s@.subrange(lo as int, i as int), sep);
        proof {
            assert(s@.subrange(lo as int, i + 1).drop_last() =~= s@.subrange(lo as int, i as int));
        }
        if s[i] == sep {
            done.push((start, i));
            start = i + 1;
            proof {
                assert(s@.subrange(start as int, i + 1) =~= Seq::<char>::empty());
            }
        } else {
            proof {
                assert(s@.subrange(start as int, i + 1) =~= s@.subrange(start as int, i as int).push(
                    s@[i as int],
                ));
            }
        }
        i = i + 1;
    }
    done.push((start, hi));
    done
}

/// The white-space separated words of `s[lo..hi]`, as bounds into `s`.
pub fn word_bounds(s: &Vec<char>, lo: usize, hi: usize) -> (r: Vec<(usize, usize)>)
    requires
        lo <= hi <= s.len(),
    ensures
        r.len() == words(s@.subrange(lo as int, hi as int)).len(),
        forall|k: int|
            0 <= k < r.len() ==> lo <= (#[trigger] r[k]).0 <= r[k].1 <= hi && s@.subrange(
                r[k].0 as int,
                r[k].1 as int,
            ) == words(s@.subrange(lo as int, hi as int))[k],
{
    let mut done: Vec<(usize, usize)> = Vec::new();
    let mut i = lo;
    proof {
        assert(s@.subrange(lo as int, lo as int) =~= Seq::<char>::empty());
    }
    while i < hi
        invariant
            lo <= i <= hi <= s.len(),
            done.len() == words(s@.subrange(lo as int, i as int)).len(),
            forall|k: int|
                0 <= k < done.len() ==> lo <= (#[trigger] done[k]).0 <= done[k].1 <= i
                    && s@.subrange(done[k].0 as int, done[k].1 as int) == words(
                    s@.subrange(lo as int, i as int),
                )[k],
            i > lo && !is_ws(s@[i - 1]) ==> done.len() > 0 && done[done.len() - 1].1 == i,
        decreases hi - i,
    {
        proof {
            assert(s@.subrange(lo as int, i + 1).drop_last() =~= s@.subrange(lo as int, i as int));
        }
        if is_ws_char(s[i]) {
        } else if i > lo && !is_ws_char(s[i - 1]) {
            let last = done.len() - 1;
            let (a, b) = done[last];
            proof {
                let sub = s@.subrange(lo as int, i + 1);
                assert(sub[sub.len() - 2] == s@[i - 1]);
                assert(s@.subrange(a as int, i + 1) =~= s@.subrange(a as int, i as int).push(
                    s@[i as int],
                ));
            }
            done.set(last, (a, i + 1));
        } else {
            done.push((i, i + 1));
            proof {
                let sub = s@.subrange(lo as int, i + 1);
                if i > lo {
                    assert(sub[sub.len() - 2] == s@[i - 1]);
                }
                assert(s@.subrange(i as int, i + 1) =~= seq![s@[i as int]]);
            }
        }
        i = i + 1;
    }
    done
}

/// The value of the one- or two-digit decimal number `s[lo..hi]`, if it is one.
pub fn parse_num(s: &Vec<char>, lo: usize, hi: usize) -> (r: Option<u8>)
    requires
        lo <= hi <= s.len(),
    ensures
        r is Some <==> num_of(s@.subrange(lo as int, hi as int)) >= 0,
        r matches Some(n) ==> n == num_of(s@.subrange(lo as int, hi as int)),
{
    let ghost f = s@.subrange(lo as int, hi as int);
    if hi - lo == 1 {
        let c = s[lo];
        proof {
            assert(f[0] == c);
        }
        if '0' <= c && c <= '9' {
            Some((c as u8) - 48)
        } else {
            None
        }
    } else if hi - lo == 2 {
        let a = s[lo];
        let b = s[lo + 1];
        proof {
            assert(f[0] == a && f[1] == b);
        }
        if '0' <= a && a <= '9' && '0' <= b && b <= '9' {
            Some(10 * ((a as u8) - 48) + ((b as u8) - 48))
        } else {
            None
        }
    } else {
        None
    }
}

/// Appends the characters of `text` to `out`.
pub fn push_all(out: &mut String, text: &[char])
    ensures
        final(out)@ == old(out)@ + text@,
{
    let mut i: usize = 0;
    while i < text.len()
        invariant
            i <= text.len(),
            out@ == old(out)@ + text@.take(i as int),
        decreases text.len() - i,
    {
        out.push(text[i]);
        proof {
            assert(text@.take(i + 1) =~= text@.take(i as int).push(text@[i as int]));
        }
        i = i + 1;
    }
    proof {
        assert(text@.take(text.len() as int) =~= text@);
    }
}

/// Appends the decimal text of `n` to `out`.
pub fn push_dec(out: &mut String, n: u64)
    ensures
        final(out)@ == old(out)@ + dec_text(n as nat),
    decreases n,
{
    if n >= 10 {
        push_dec(out, n / 10);
    }
    let d = (n % 10) as u8;
    let c = (d + 48) as char;
    proof {
        assert(c == digit_char((n % 10) as int));
    }
    out.push(c);
    proof {
        if n >= 10 {
            assert(dec_text(n as nat) == dec_text((n / 10) as nat).push(c));
        }
    }
}

} // verus!
