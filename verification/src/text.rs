//! Character-level text helpers: separator splitting, whitespace trimming and
//! decimal numbers, each as a specification function with a verified
//! executable counterpart.

use vstd::prelude::*;

verus! {

/// ASCII whitespace, the characters `trim` strips around a token.
pub open spec fn is_ws(ch: char) -> bool {
    ch == ' ' || ch == '\t' || ch == '\n' || ch == '\r' || ch == '\u{b}' || ch == '\u{c}'
}

/// Splitting `s` at `sep` after an already-open piece `cur`: the worker
/// behind [`split_ch`].
pub open spec fn split_acc(s: Seq<char>, sep: char, cur: Seq<char>) -> Seq<Seq<char>>
    decreases s.len(),
{
    if s.len() == 0 {
        seq![cur]
    } else if s[0] == sep {
        seq![cur] + split_acc(s.skip(1), sep, Seq::empty())
    } else {
        split_acc(s.skip(1), sep, cur.push(s[0]))
    }
}

/// The pieces of `s` between occurrences of `sep`: always one more piece
/// than there are separators, so the empty text yields one empty piece.
pub open spec fn split_ch(s: Seq<char>, sep: char) -> Seq<Seq<char>> {
    split_acc(s, sep, Seq::empty())
}

pub proof fn lemma_split_acc_no_sep(s: Seq<char>, sep: char, cur: Seq<char>)
    requires
        forall|i: int| 0 <= i < s.len() ==> #[trigger] s[i] != sep,
    ensures
        split_acc(s, sep, cur) == seq![cur + s],
    decreases s.len(),
{
    if s.len() == 0 {
        assert(cur + s =~= cur);
    } else {
        assert(s[0] != sep);
        assert(forall|i: int| 0 <= i < s.skip(1).len() ==> #[trigger] s.skip(1)[i] != sep);
        lemma_split_acc_no_sep(s.skip(1), sep, cur.push(s[0]));
        assert(cur.push(s[0]) + s.skip(1) =~= cur + s);
    }
}

pub proof fn lemma_split_acc_sep(a: Seq<char>, sep: char, b: Seq<char>, cur: Seq<char>)
    requires
        forall|i: int| 0 <= i < a.len() ==> #[trigger] a[i] != sep,
    ensures
        split_acc(a + seq![sep] + b, sep, cur) == seq![cur + a] + split_acc(
            b,
            sep,
            Seq::<char>::empty(),
        ),
    decreases a.len(),
{
    let s = a + seq![sep] + b;
    if a.len() == 0 {
        assert(s.len() > 0 && s[0] == sep);
        assert(s.skip(1) =~= b);
        assert(cur + a =~= cur);
    } else {
        assert(s[0] == a[0] && a[0] != sep);
        assert(s.skip(1) =~= a.skip(1) + seq![sep] + b);
        assert(forall|i: int| 0 <= i < a.skip(1).len() ==> #[trigger] a.skip(1)[i] != sep);
        lemma_split_acc_sep(a.skip(1), sep, b, cur.push(a[0]));
        assert(cur.push(a[0]) + a.skip(1) =~= cur + a);
    }
}

/// `t` without its leading whitespace.
pub open spec fn drop_leading_ws(t: Seq<char>) -> Seq<char>
    decreases t.len(),
{
    if t.len() > 0 && is_ws(t[0]) {
        drop_leading_ws(t.skip(1))
    } else {
        t
    }
}

/// `t` without its trailing whitespace.
pub open spec fn drop_trailing_ws(t: Seq<char>) -> Seq<char>
    decreases t.len(),
{
    if t.len() > 0 && is_ws(t[t.len() - 1]) {
        drop_trailing_ws(t.take(t.len() - 1))
    } else {
        t
    }
}

/// `t` without leading and trailing whitespace.
pub open spec fn trimmed(t: Seq<char>) -> Seq<char> {
    drop_trailing_ws(drop_leading_ws(t))
}

/// A decimal digit.
pub open spec fn is_digit(ch: char) -> bool {
    48 <= ch as int <= 57
}

/// Every character of `s` is a decimal digit.
pub open spec fn all_digits(s: Seq<char>) -> bool {
    forall|i: int| 0 <= i < s.len() ==> is_digit(#[trigger] s[i])
}

/// The value of a digit sequence read as a decimal number.
pub open spec fn digits_val(s: Seq<char>) -> int
    decreases s.len(),
{
    if s.len() == 0 {
        0
    } else {
        digits_val(s.take(s.len() - 1)) * 10 + (s[s.len() - 1] as int - 48)
    }
}

/// The number an unsigned byte reads from `u`: an optional leading `+`, then
/// one or more decimal digits, valued at most 255. Mirrors how the standard
/// numeric parser accepts unsigned byte text.
pub open spec fn parse_u8_val(u: Seq<char>) -> Option<u8> {
    let body = if u.len() > 0 && u[0] == '+' {
        u.skip(1)
    } else {
        u
    };
    if body.len() == 0 || !all_digits(body) {
        None
    } else if digits_val(body) > 255 {
        None
    } else {
        Some(digits_val(body) as u8)
    }
}

/// The number read from `u` after trimming whitespace.
pub open spec fn trimmed_u8(u: Seq<char>) -> Option<u8> {
    parse_u8_val(trimmed(u))
}

pub proof fn lemma_digits_val_nonneg(s: Seq<char>)
    requires
        all_digits(s),
    ensures
        digits_val(s) >= 0,
    decreases s.len(),
{
    if s.len() > 0 {
        assert(all_digits(s.take(s.len() - 1))) by {
            assert(forall|i: int|
                0 <= i < s.len() - 1 ==> #[trigger] s.take(s.len() - 1)[i] == s[i]);
        }
        lemma_digits_val_nonneg(s.take(s.len() - 1));
        assert(is_digit(s[s.len() - 1]));
    }
}

/// Reads one character of `s`.
pub fn char_at(s: &Vec<char>, i: usize) -> (ch: char)
    requires
        i < s@.len(),
    ensures
        ch == s@[i as int],
{
    s[i]
}

/// Whether `ch` is whitespace that trimming strips.
pub fn is_ws_char(ch: char) -> (r: bool)
    ensures
        r == is_ws(ch),
{
    ch == ' ' || ch == '\t' || ch == '\n' || ch == '\r' || ch == '\u{b}' || ch == '\u{c}'
}

/// The characters of `s`, one by one.
pub fn to_char_vec(s: &str) -> (r: Vec<char>)
    ensures
        r@ == s@,
{
    let n = s.unicode_len();
    let mut r: Vec<char> = Vec::new();
    let mut i: usize = 0;
    while i < n
        invariant
            i <= n,
            n == s@.len(),
            r@ == s@.take(i as int),
        decreases n - i,
    {
        let ch = s.get_char(i);
        r.push(ch);
        proof {
            assert(r@ =~= s@.take(i + 1));
        }
        i += 1;
    }
    proof {
        assert(r@ =~= s@);
    }
    r
}

/// Splits `s` into the pieces between occurrences of `sep`.
pub fn split_vec(s: &Vec<char>, sep: char) -> (r: Vec<Vec<char>>)
    ensures
        r@.len() == split_ch(s@, sep).len(),
        forall|i: int| 0 <= i < r@.len() ==> #[trigger] r@[i]@ == split_ch(s@, sep)[i],
{
    let ghost whole = split_ch(s@, sep);
    let mut groups: Vec<Vec<char>> = Vec::new();
    let ghost mut done: Seq<Seq<char>> = Seq::empty();
    let mut cur: Vec<char> = Vec::new();
    let mut i: usize = 0;
    proof {
        assert(s@.skip(0) =~= s@);
        assert(done + split_acc(s@, sep, cur@) =~= split_acc(s@, sep, Seq::<char>::empty()));
    }
    while i < s.len()
        invariant
            i <= s@.len(),
            whole == split_ch(s@, sep),
            whole == done + split_acc(s@.skip(i as int), sep, cur@),
            groups@.len() == done.len(),
            forall|j: int| 0 <= j < groups@.len() ==> #[trigger] groups@[j]@ == done[j],
        decreases s@.len() - i,
    {
        let ch = char_at(s, i);
        proof {
            assert(s@.skip(i as int)[0] == s@[i as int]);
            assert(s@.skip(i as int).skip(1) =~= s@.skip(i as int + 1));
        }
        if ch == sep {
            let ghost cur_piece = cur@;
            groups.push(cur);
            cur = Vec::new();
            proof {
                assert(split_acc(s@.skip(i as int), sep, cur_piece) == seq![cur_piece]
                    + split_acc(s@.skip(i as int + 1), sep, Seq::<char>::empty()));
                done = done.push(cur_piece);
                assert(whole =~= done + split_acc(s@.skip(i as int + 1), sep, cur@));
            }
        } else {
            cur.push(ch);
        }
        i += 1;
    }
    proof {
        assert(s@.skip(i as int) =~= Seq::<char>::empty());
    }
    groups.push(cur);
    proof {
        assert(whole =~= done.push(cur@));
    }
    groups
}

/// `t` with leading and trailing whitespace removed.
pub fn trim_chars(t: &Vec<char>) -> (r: Vec<char>)
    ensures
        r@ == trimmed(t@),
{
    let n = t.len();
    let mut lo: usize = 0;
    while lo < n && is_ws_char(t[lo])
        invariant
            lo <= n,
            n == t@.len(),
            forall|j: int| 0 <= j < lo ==> is_ws(#[trigger] t@[j]),
        decreases n - lo,
    {
        lo += 1;
    }
    let mut hi: usize = n;
    while hi > lo && is_ws_char(t[hi - 1])
        invariant
            lo <= hi <= n,
            n == t@.len(),
            forall|j: int| 0 <= j < lo ==> is_ws(#[trigger] t@[j]),
            forall|j: int| hi <= j < n ==> is_ws(#[trigger] t@[j]),
        decreases hi,
    {
        hi -= 1;
    }
    let mut r: Vec<char> = Vec::new();
    let mut j: usize = lo;
    while j < hi
        invariant
            lo <= j <= hi <= n,
            n == t@.len(),
            r@ == t@.subrange(lo as int, j as int),
        decreases hi - j,
    {
        let ch = char_at(t, j);
        r.push(ch);
        proof {
            assert(r@ =~= t@.subrange(lo as int, j + 1));
        }
        j += 1;
    }
    proof {
        lemma_drop_leading_ws_at(t@, lo as int);
        let u = t@.skip(lo as int);
        assert(forall|k: int|
            hi - lo <= k < u.len() ==> is_ws(#[trigger] u[k]));
        if hi > lo {
            assert(!is_ws(u[hi - lo - 1]));
        }
        lemma_drop_trailing_ws_at(u, hi - lo);
        assert(r@ =~= u.take(hi - lo));
    }
    r
}

proof fn lemma_drop_leading_ws_at(t: Seq<char>, k: int)
    requires
        0 <= k <= t.len(),
        forall|j: int| 0 <= j < k ==> is_ws(#[trigger] t[j]),
        k < t.len() ==> !is_ws(t[k]),
    ensures
        drop_leading_ws(t) == t.skip(k),
    decreases k,
{
    if k == 0 {
        assert(t.skip(0) =~= t);
    } else {
        assert(is_ws(t[0]));
        assert(forall|j: int| 0 <= j < k - 1 ==> is_ws(#[trigger] t.skip(1)[j]));
        lemma_drop_leading_ws_at(t.skip(1), k - 1);
        assert(t.skip(1).skip(k - 1) =~= t.skip(k));
    }
}

proof fn lemma_drop_trailing_ws_at(t: Seq<char>, k: int)
    requires
        0 <= k <= t.len(),
        forall|j: int| k <= j < t.len() ==> is_ws(#[trigger] t[j]),
        k > 0 ==> !is_ws(t[k - 1]),
    ensures
        drop_trailing_ws(t) == t.take(k),
    decreases t.len() - k,
{
    if k == t.len() as int {
        if t.len() > 0 && is_ws(t[t.len() - 1]) {
            assert(forall|j: int|
                k - 1 <= j < t.take(t.len() - 1).len() ==> is_ws(#[trigger] t.take(t.len() - 1)[j]));
            lemma_drop_trailing_ws_at(t.take(t.len() - 1), k - 1);
            assert(false);
        } else {
            assert(t.take(k) =~= t);
        }
    } else {
        assert(is_ws(t[t.len() - 1]));
        let u = t.take(t.len() - 1);
        assert(forall|j: int| k <= j < u.len() ==> is_ws(#[trigger] u[j]));
        lemma_drop_trailing_ws_at(u, k);
        assert(u.take(k) =~= t.take(k));
    }
}

/// Reads `t` as an unsigned byte: an optional leading `+`, then decimal
/// digits valued at most 255.
pub fn parse_u8_chars(t: &Vec<char>) -> (r: Option<u8>)
    ensures
        r == parse_u8_val(t@),
{
    let n = t.len();
    let start: usize = if n > 0 && char_at(t, 0) == '+' {
        1
    } else {
        0
    };
    let ghost body = if t@.len() > 0 && t@[0] == '+' {
        t@.skip(1)
    } else {
        t@
    };
    proof {
        assert(body =~= t@.subrange(start as int, n as int));
    }
    if n == start {
        proof {
            assert(body.len() == 0);
        }
        return None;
    }
    let mut acc: u32 = 0;
    let mut i: usize = start;
    while i < n
        invariant
            start <= i <= n,
            n == t@.len(),
            body == t@.subrange(start as int, n as int),
            body == (if t@.len() > 0 && t@[0] == '+' {
                t@.skip(1)
            } else {
                t@
            }),
            all_digits(t@.subrange(start as int, i as int)),
            acc <= 256,
            digits_val(t@.subrange(start as int, i as int)) <= 255 ==> acc == digits_val(
                t@.subrange(start as int, i as int),
            ),
            digits_val(t@.subrange(start as int, i as int)) > 255 ==> acc == 256,
        decreases n - i,
    {
        let ch = char_at(t, i);
        let cv = ch as u32;
        if cv < 48 || cv > 57 {
            proof {
                assert(body[i - start] == t@[i as int]);
                assert(!is_digit(body[i - start]));
                assert(!all_digits(body));
            }
            return None;
        }
        let d: u32 = cv - 48;
        let ghost pre = t@.subrange(start as int, i as int);
        let ghost post = t@.subrange(start as int, i + 1);
        proof {
            assert(post.take(post.len() - 1) =~= pre);
            assert(post[post.len() - 1] == t@[i as int]);
            lemma_digits_val_nonneg(pre);
            assert(all_digits(post)) by {
                assert(forall|j: int| 0 <= j < pre.len() ==> post[j] == #[trigger] pre[j]);
            }
        }
        let next = acc * 10 + d;
        if next > 255 {
            acc = 256;
            proof {
                if digits_val(pre) <= 255 {
                    assert(digits_val(post) == digits_val(pre) * 10 + (t@[i as int] as int - 48));
                    assert(digits_val(post) > 255);
                } else {
                    assert(digits_val(post) > 255) by {
                        lemma_digits_val_nonneg(pre);
                        assert(digits_val(post) == digits_val(pre) * 10 + (t@[i as int] as int
                            - 48));
                        assert(digits_val(pre) * 10 > 2550) by (nonlinear_arith)
                            requires
                                digits_val(pre) > 255,
                        ;
                    }
                }
            }
        } else {
            acc = next;
            proof {
                assert(digits_val(pre) <= 255);
                assert(digits_val(post) == digits_val(pre) * 10 + (t@[i as int] as int - 48));
            }
        }
        i += 1;
    }
    proof {
        assert(body =~= t@.subrange(start as int, n as int));
        assert(body.len() > 0);
    }
    if acc > 255 {
        None
    } else {
        Some(acc as u8)
    }
}

} // verus!
