use vstd::prelude::*;

verus! {

/// The characters that `char::is_whitespace` accepts: those of Unicode's
/// `White_Space` property.
pub open spec fn is_space(c: char) -> bool {
    let x = c as u32;
    x == 0x20 || (0x09 <= x && x <= 0x0d) || x == 0x85 || x == 0xa0 || x == 0x1680 || (0x2000 <= x
        && x <= 0x200a) || x == 0x2028 || x == 0x2029 || x == 0x202f || x == 0x205f || x == 0x3000
}

pub fn is_whitespace(c: char) -> (r: bool)
    ensures
        r == is_space(c),
{
    let x = c as u32;
    x == 0x20 || (0x09 <= x && x <= 0x0d) || x == 0x85 || x == 0xa0 || x == 0x1680 || (0x2000 <= x
        && x <= 0x200a) || x == 0x2028 || x == 0x2029 || x == 0x202f || x == 0x205f || x == 0x3000
}

/// How many bytes `c` takes in UTF-8, as `char::len_utf8` gives it.
pub open spec fn utf8_len(c: char) -> nat {
    let x = c as u32;
    if x < 0x80 {
        1
    } else if x < 0x800 {
        2
    } else if x < 0x10000 {
        3
    } else {
        4
    }
}

/// How many bytes `s` takes in UTF-8.
pub open spec fn utf8_width(s: Seq<char>) -> nat
    decreases s.len(),
{
    if s.len() == 0 {
        0
    } else {
        utf8_width(s.drop_last()) + utf8_len(s.last())
    }
}

/// The byte offset of character position `p` in `s`, held to `usize`.
pub open spec fn byte_offset_of(s: Seq<char>, p: int) -> int {
    let w = utf8_width(s.take(p)) as int;
    if w > usize::MAX {
        usize::MAX as int
    } else {
        w
    }
}

pub fn utf8_len_of(c: char) -> (r: usize)
    ensures
        r == utf8_len(c),
{
    let x = c as u32;
    if x < 0x80 {
        1
    } else if x < 0x800 {
        2
    } else if x < 0x10000 {
        3
    } else {
        4
    }
}

pub open spec fn is_digit(c: char) -> bool {
    '0' <= c && c <= '9'
}

pub open spec fn digit_char(d: nat) -> char {
    ((d + 48) as u8) as char
}

/// The decimal digits of `n`, without leading zeros.
pub open spec fn decimal(n: nat) -> Seq<char>
    decreases n,
{
    if n < 10 {
        seq![digit_char(n)]
    } else {
        decimal(n / 10).push(digit_char(n % 10))
    }
}

/// `i` in decimal, with a leading `-` when negative.
pub open spec fn signed_decimal(i: int) -> Seq<char> {
    if i < 0 {
        seq!['-'] + decimal((-i) as nat)
    } else {
        decimal(i as nat)
    }
}

pub open spec fn is_newline() -> spec_fn(char) -> bool {
    |c: char| c == '\n'
}

/// The number of line ends in `s`.
pub open spec fn line_count(s: Seq<char>) -> nat {
    s.filter(is_newline()).len()
}

/// The decimal form of a number holds only digits.
pub proof fn lemma_decimal_digits(n: nat)
    ensures
        forall|i: int| 0 <= i < decimal(n).len() ==> is_digit(#[trigger] decimal(n)[i]),
        decimal(n).len() > 0,
    decreases n,
{
    if n >= 10 {
        lemma_decimal_digits(n / 10);
    }
}

/// A text of digits holds no line end.
pub proof fn lemma_digits_no_line(s: Seq<char>)
    requires
        forall|i: int| 0 <= i < s.len() ==> is_digit(#[trigger] s[i]),
    ensures
        line_count(s) == 0,
    decreases s.len(),
{
    reveal(Seq::filter);
    if s.len() > 0 {
        assert(is_digit(s[s.len() - 1]));
        lemma_digits_no_line(s.drop_last());
    }
}

/// Appends the decimal digits of `n`.
pub fn push_decimal(out: &mut Vec<char>, n: u64)
    ensures
        final(out)@ == old(out)@ + decimal(n as nat),
    decreases n,
{
    if n >= 10 {
        push_decimal(out, n / 10);
    }
    let d = (n % 10) as u8;
    out.push((d + 48) as char);
    proof {
        assert(final(out)@ =~= old(out)@ + decimal(n as nat));
    }
}

/// Appends `i` in decimal, with a leading `-` when negative.
pub fn push_signed_decimal(out: &mut Vec<char>, i: i64)
    ensures
        final(out)@ == old(out)@ + signed_decimal(i as int),
{
    if i < 0 {
        out.push('-');
        let m: u64 = if i == i64::MIN {
            0x8000_0000_0000_0000
        } else {
            (-i) as u64
        };
        push_decimal(out, m);
        proof {
            assert(final(out)@ =~= old(out)@ + signed_decimal(i as int));
        }
    } else {
        push_decimal(out, i as u64);
    }
}

/// Relies on `FromIterator<char>` for `String`: the string of exactly these
/// characters, in this order.
#[verifier::external_body]
pub(crate) fn string_of(chars: &Vec<char>) -> (r: String)
    ensures
        r@ == chars@,
{
    chars.iter().collect()
}

/// The whitespace-separated tokens of `s`, in order.
pub open spec fn tokens(s: Seq<char>) -> Seq<Seq<char>>
    decreases s.len(),
{
    if s.len() == 0 {
        Seq::empty()
    } else {
        let t = tokens(s.drop_last());
        let c = s.last();
        if is_space(c) {
            t
        } else if s.len() >= 2 && !is_space(s[s.len() - 2]) {
            t.drop_last().push(t.last().push(c))
        } else {
            t.push(seq![c])
        }
    }
}

/// Position `p` does not fall inside a token of `s`.
pub open spec fn at_boundary(s: Seq<char>, p: int) -> bool {
    p == 0 || p == s.len() || is_space(s[p - 1]) || is_space(s[p])
}

proof fn lemma_tokens_nonempty(s: Seq<char>)
    requires
        s.len() > 0,
        !is_space(s.last()),
    ensures
        tokens(s).len() > 0,
    decreases s.len(),
{
    if s.len() >= 2 && !is_space(s[s.len() - 2]) {
        lemma_tokens_nonempty(s.drop_last());
    }
}

/// Cutting `s` where no token is cut cuts its tokens in two.
pub proof fn lemma_tokens_split(s: Seq<char>, p: int)
    requires
        0 <= p <= s.len(),
        at_boundary(s, p),
    ensures
        tokens(s) == tokens(s.take(p)) + tokens(s.skip(p)),
    decreases s.len() - p,
{
    if s.len() == p {
        assert(s.take(p) =~= s);
        assert(s.skip(p) =~= Seq::<char>::empty());
        assert(tokens(s) + Seq::<Seq<char>>::empty() =~= tokens(s));
    } else {
        let s1 = s.drop_last();
        let x = s.skip(p);
        assert(at_boundary(s1, p));
        lemma_tokens_split(s1, p);
        assert(s1.take(p) =~= s.take(p));
        assert(s1.skip(p) =~= x.drop_last());
        assert(x.last() == s.last());
        let a = tokens(s.take(p));
        let b1 = tokens(x.drop_last());
        if is_space(s.last()) {
        } else if s.len() >= 2 && !is_space(s[s.len() - 2]) {
            assert(x.len() >= 2);
            assert(x[x.len() - 2] == s[s.len() - 2]);
            lemma_tokens_nonempty(x.drop_last());
            assert((a + b1).drop_last() =~= a + b1.drop_last());
            assert((a + b1).last() == b1.last());
            assert((a + b1).drop_last().push((a + b1).last().push(s.last())) =~= a + b1.drop_last().push(
                b1.last().push(s.last()),
            ));
        } else {
            if x.len() >= 2 {
                assert(x[x.len() - 2] == s[s.len() - 2]);
            }
            assert((a + b1).push(seq![s.last()]) =~= a + b1.push(seq![s.last()]));
        }
    }
}

/// A run of characters without whitespace is one token.
pub proof fn lemma_tokens_word(w: Seq<char>)
    requires
        w.len() > 0,
        forall|i: int| 0 <= i < w.len() ==> !is_space(#[trigger] w[i]),
    ensures
        tokens(w) == seq![w],
    decreases w.len(),
{
    assert(!is_space(w[w.len() - 1]));
    if w.len() == 1 {
        assert(w.drop_last() =~= Seq::<char>::empty());
        assert(tokens(w.drop_last()) == Seq::<Seq<char>>::empty());
        assert(tokens(w) == tokens(w.drop_last()).push(seq![w.last()]));
        assert(seq![w.last()] =~= w);
        assert(Seq::<Seq<char>>::empty().push(w) =~= seq![w]);
    } else {
        assert(!is_space(w[w.len() - 2]));
        lemma_tokens_word(w.drop_last());
        assert(w.drop_last().push(w.last()) =~= w);
        let t = tokens(w.drop_last());
        assert(tokens(w) == t.drop_last().push(t.last().push(w.last())));
        assert(seq![w.drop_last()].drop_last().push(w.drop_last().push(w.last())) =~= seq![w]);
    }
}

/// A run of whitespace holds no token.
pub proof fn lemma_tokens_space(w: Seq<char>)
    requires
        forall|i: int| 0 <= i < w.len() ==> is_space(#[trigger] w[i]),
    ensures
        tokens(w) == Seq::<Seq<char>>::empty(),
    decreases w.len(),
{
    if w.len() > 0 {
        lemma_tokens_space(w.drop_last());
    }
}

/// Reading the word from `p` to `e` and the whitespace from `e` to `q`
/// takes the first token of what follows `p`, if any.
pub proof fn lemma_read_token(s: Seq<char>, p: int, e: int, q: int)
    requires
        0 <= p <= e <= q <= s.len(),
        at_boundary(s, p),
        forall|i: int| p <= i < e ==> !is_space(#[trigger] s[i]),
        e == s.len() || is_space(s[e]),
        forall|i: int| e <= i < q ==> is_space(#[trigger] s[i]),
        q == s.len() || !is_space(s[q]),
    ensures
        tokens(s.skip(p)) == (if e > p {
            seq![s.subrange(p, e)]
        } else {
            Seq::empty()
        }) + tokens(s.skip(q)),
{
    let x = s.skip(p);
    assert(at_boundary(x, e - p));
    lemma_tokens_split(x, e - p);
    assert(x.take(e - p) =~= s.subrange(p, e));
    assert(x.skip(e - p) =~= s.skip(e));
    if e > p {
        lemma_tokens_word(s.subrange(p, e));
    } else {
        lemma_tokens_space(s.subrange(p, e));
    }
    let y = s.skip(e);
    assert(at_boundary(y, q - e));
    lemma_tokens_split(y, q - e);
    assert(y.take(q - e) =~= s.subrange(e, q));
    assert(y.skip(q - e) =~= s.skip(q));
    lemma_tokens_space(s.subrange(e, q));
    assert(Seq::<Seq<char>>::empty() + tokens(s.skip(q)) =~= tokens(s.skip(q)));
    assert(seq![s.subrange(p, e)] + Seq::<Seq<char>>::empty() + tokens(s.skip(q)) =~= seq![
        s.subrange(p, e),
    ] + tokens(s.skip(q)));
}

/// The value of a non-empty run of decimal digits.
pub open spec fn digits_value(s: Seq<char>) -> nat
    decreases s.len(),
{
    if s.len() == 0 {
        0
    } else {
        digits_value(s.drop_last()) * 10 + (s.last() as nat - 48) as nat
    }
}

pub open spec fn all_digits(s: Seq<char>) -> bool {
    s.len() > 0 && forall|i: int| 0 <= i < s.len() ==> is_digit(#[trigger] s[i])
}

/// The number that a token spells the way `u32::from_str` reads it: an
/// optional `+` and then decimal digits. Values above `u32::MAX` are kept
/// here; the callers' own range tests reject them.
pub open spec fn unsigned_value(s: Seq<char>) -> Option<int> {
    let d = if s.len() > 0 && s[0] == '+' {
        s.drop_first()
    } else {
        s
    };
    if all_digits(d) {
        Some(digits_value(d) as int)
    } else {
        None
    }
}

/// As `unsigned_value`, with `-` allowed in front as well, as `i8::from_str`
/// reads it.
pub open spec fn signed_value(s: Seq<char>) -> Option<int> {
    if s.len() > 0 && s[0] == '-' {
        if all_digits(s.drop_first()) {
            Some(-(digits_value(s.drop_first()) as int))
        } else {
            None
        }
    } else {
        unsigned_value(s)
    }
}

} // verus!
