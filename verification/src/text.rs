//! Tokenization of the matrix text grammar — whitespace-separated tokens —
//! and parsing of the non-negative integer tokens of its header.

use vstd::prelude::*;

verus! {

/// A whitespace character of the grammar: tokens are separated by any
/// run of these, and nothing else.
pub open spec fn is_space(c: char) -> bool {
    c == ' ' || c == '\t' || c == '\n' || c == '\r' || c == '\x0b' || c == '\x0c'
}

/// The tokens of the text `s`, given that the characters of `cur` (the
/// token being scanned) came right before `s` with no space after them.
pub open spec fn tokens_from(s: Seq<char>, cur: Seq<char>) -> Seq<Seq<char>>
    decreases s.len(),
{
    if s.len() == 0 {
        if cur.len() == 0 {
            Seq::empty()
        } else {
            seq![cur]
        }
    } else if is_space(s[0]) {
        if cur.len() == 0 {
            tokens_from(s.drop_first(), Seq::empty())
        } else {
            seq![cur] + tokens_from(s.drop_first(), Seq::empty())
        }
    } else {
        tokens_from(s.drop_first(), cur.push(s[0]))
    }
}

/// The maximal runs of non-space characters of `s`, in order.
pub open spec fn tokens_of(s: Seq<char>) -> Seq<Seq<char>> {
    tokens_from(s, Seq::empty())
}

/// An ASCII decimal digit.
pub open spec fn is_digit(c: char) -> bool {
    48 <= c as int && c as int <= 57
}

/// The value of an ASCII decimal digit.
pub open spec fn digit_val(c: char) -> int {
    c as int - 48
}

/// Every character of `s` is an ASCII decimal digit.
pub open spec fn all_digits(s: Seq<char>) -> bool {
    forall|k: int| 0 <= k < s.len() ==> is_digit(s[k])
}

/// The value of a string of decimal digits, most significant first.
pub open spec fn digits_val(s: Seq<char>) -> int
    decreases s.len(),
{
    if s.len() == 0 {
        0
    } else {
        digits_val(s.drop_last()) * 10 + digit_val(s.last())
    }
}

/// The digits of an integer token: what follows its optional leading `+`.
pub open spec fn header_digits(s: Seq<char>) -> Seq<char> {
    if s.len() > 0 && s[0] == '+' {
        s.drop_first()
    } else {
        s
    }
}

/// The value a token denotes as a `usize`: an optional leading `+`, then
/// one or more decimal digits, whose value fits in a `usize`.
pub open spec fn usize_of_token(s: Seq<char>) -> Option<usize> {
    if header_digits(s).len() > 0 && all_digits(header_digits(s)) && digits_val(header_digits(s))
        <= usize::MAX {
        Some(digits_val(header_digits(s)) as usize)
    } else {
        None
    }
}

pub proof fn lemma_digits_val_nonneg(s: Seq<char>)
    requires
        all_digits(s),
    ensures
        digits_val(s) >= 0,
    decreases s.len(),
{
    if s.len() > 0 {
        lemma_digits_val_nonneg(s.drop_last());
    }
}

/// Appending digits never shrinks the value: the value of `d` is at least
/// the value of any of its prefixes.
pub proof fn lemma_digits_val_prefix(d: Seq<char>, m: int)
    requires
        all_digits(d),
        0 <= m <= d.len(),
    ensures
        digits_val(d.take(m)) <= digits_val(d),
    decreases d.len() - m,
{
    if m == d.len() {
        assert(d.take(m) =~= d);
    } else {
        assert(d.take(m + 1).drop_last() =~= d.take(m));
        assert(all_digits(d.take(m)));
        lemma_digits_val_nonneg(d.take(m));
        lemma_digits_val_prefix(d, m + 1);
    }
}

/// No token is longer than the text it came from.
pub proof fn lemma_tokens_from_lengths(s: Seq<char>, cur: Seq<char>, k: int)
    requires
        0 <= k < tokens_from(s, cur).len(),
    ensures
        tokens_from(s, cur)[k].len() <= s.len() + cur.len(),
    decreases s.len(),
{
    if s.len() == 0 {
    } else if is_space(s[0]) {
        if cur.len() == 0 {
            lemma_tokens_from_lengths(s.drop_first(), Seq::empty(), k);
        } else {
            if k == 0 {
            } else {
                lemma_tokens_from_lengths(s.drop_first(), Seq::empty(), k - 1);
            }
        }
    } else {
        lemma_tokens_from_lengths(s.drop_first(), cur.push(s[0]), k);
    }
}

/// No token is longer than the text it came from.
pub proof fn lemma_tokens_of_lengths(s: Seq<char>, k: int)
    requires
        0 <= k < tokens_of(s).len(),
    ensures
        tokens_of(s)[k].len() <= s.len(),
{
    lemma_tokens_from_lengths(s, Seq::empty(), k);
}

fn is_space_char(c: char) -> (b: bool)
    ensures
        b == is_space(c),
{
    c == ' ' || c == '\t' || c == '\n' || c == '\r' || c == '\x0b' || c == '\x0c'
}

/// Splits `s` into its maximal runs of non-space characters.
pub fn tokenize(s: &str) -> (toks: Vec<String>)
    ensures
        toks.deep_view() == tokens_of(s@),
{
    let n = s.unicode_len();
    let mut toks: Vec<String> = Vec::new();
    let mut start: usize = 0;
    let mut in_tok: bool = false;
    let mut i: usize = 0;
    proof {
        assert(s@.skip(0) =~= s@);
        assert(toks.deep_view() =~= Seq::<Seq<char>>::empty());
        assert(Seq::<Seq<char>>::empty() + tokens_of(s@) =~= tokens_of(s@));
    }
    while i < n
        invariant
            n == s@.len(),
            i <= n,
            in_tok ==> start < i,
            in_tok ==> (forall|k: int| start <= k < i ==> !is_space(s@[k])),
            ({
                let cur = if in_tok {
                    s@.subrange(start as int, i as int)
                } else {
                    Seq::<char>::empty()
                };
                toks.deep_view() + tokens_from(s@.skip(i as int), cur) == tokens_of(s@)
            }),
        decreases n - i,
    {
        let c = s.get_char(i);
        let ghost cur = if in_tok {
            s@.subrange(start as int, i as int)
        } else {
            Seq::<char>::empty()
        };
        proof {
            assert(s@.skip(i as int).drop_first() =~= s@.skip(i as int + 1));
            assert(s@.skip(i as int)[0] == s@[i as int]);
        }
        if is_space_char(c) {
            if in_tok {
                let ghost pre = toks.deep_view();
                let ghost rest = tokens_from(s@.skip(i as int + 1), Seq::<char>::empty());
                let t = s.substring_char(start, i);
                toks.push(String::from_str(t));
                in_tok = false;
                proof {
                    assert(toks.deep_view() =~= pre.push(cur));
                    assert(pre.push(cur) + rest =~= pre + (seq![cur] + rest));
                }
            }
        } else {
            if !in_tok {
                start = i;
                in_tok = true;
            }
            proof {
                assert(s@.subrange(start as int, i as int + 1) =~= cur.push(s@[i as int]));
            }
        }
        i += 1;
    }
    proof {
        assert(s@.skip(n as int) =~= Seq::<char>::empty());
    }
    if in_tok {
        let ghost pre = toks.deep_view();
        let ghost cur = s@.subrange(start as int, n as int);
        let t = s.substring_char(start, n);
        toks.push(String::from_str(t));
        proof {
            assert(toks.deep_view() =~= pre.push(cur));
            assert(pre.push(cur) =~= pre + seq![cur]);
        }
    }
    toks
}

/// Parses a token as a non-negative integer, as the matrix header uses it:
/// an optional leading `+`, then one or more decimal digits; `None` where
/// the token has any other shape or the value does not fit in a `usize`.
pub fn parse_usize(t: &str) -> (r: Option<usize>)
    ensures
        r == usize_of_token(t@),
{
    let n = t.unicode_len();
    let start: usize = if n > 0 && t.get_char(0) == '+' {
        1
    } else {
        0
    };
    let ghost d = header_digits(t@);
    proof {
        assert(d =~= t@.skip(start as int));
    }
    if n == start {
        return None;
    }
    let mut acc: usize = 0;
    let mut k: usize = start;
    while k < n
        invariant
            n == t@.len(),
            start <= k <= n,
            d == header_digits(t@),
            d == t@.skip(start as int),
            d.len() == n - start,
            all_digits(d.take(k - start)),
            acc == digits_val(d.take(k - start)),
        decreases n - k,
    {
        let c = t.get_char(k);
        let v = c as u32;
        proof {
            assert(d[k - start] == t@[k as int]);
            assert(d.take(k - start + 1).drop_last() =~= d.take(k - start));
            assert(d.take(k - start + 1).last() == d[k - start]);
        }
        if v < 48 || v > 57 {
            proof {
                assert(!is_digit(d[k - start]));
                assert(!all_digits(d));
            }
            return None;
        }
        let dv = (v - 48) as usize;
        let next = match acc.checked_mul(10) {
            Some(m) => m.checked_add(dv),
            None => None,
        };
        match next {
            Some(m) => {
                acc = m;
            },
            None => {
                proof {
                    assert(digits_val(d.take(k - start + 1)) == acc * 10 + dv);
                    if all_digits(d) {
                        lemma_digits_val_prefix(d, k - start + 1);
                    }
                }
                return None;
            },
        }
        k += 1;
    }
    proof {
        assert(d.take(n - start) =~= d);
        lemma_digits_val_nonneg(d);
    }
    Some(acc)
}

} // verus!
