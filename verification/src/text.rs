//! Plain-text helpers shared by the command parser and the store codec:
//! whitespace tokenization, joining tokens, and decimal numbers.

use vstd::prelude::*;

verus! {

/// Characters that separate tokens in a command line.
pub open spec fn is_space(c: char) -> bool {
    c == ' ' || c == '\t' || c == '\n' || c == '\r'
}

pub(crate) fn is_space_char(c: char) -> (b: bool)
    ensures
        b == is_space(c),
{
    c == ' ' || c == '\t' || c == '\n' || c == '\r'
}

/// Whitespace splitting, one character at a time: `cur` is the token being
/// built, `acc` the tokens already finished.
pub open spec fn split_ws_rec(s: Seq<char>, cur: Seq<char>, acc: Seq<Seq<char>>) -> Seq<Seq<char>>
    decreases s.len(),
{
    if s.len() == 0 {
        if cur.len() == 0 {
            acc
        } else {
            acc.push(cur)
        }
    } else if is_space(s[0]) {
        if cur.len() == 0 {
            split_ws_rec(s.drop_first(), cur, acc)
        } else {
            split_ws_rec(s.drop_first(), Seq::empty(), acc.push(cur))
        }
    } else {
        split_ws_rec(s.drop_first(), cur.push(s[0]), acc)
    }
}

/// The whitespace-separated tokens of `s`, in order, with no empty tokens.
pub open spec fn split_ws(s: Seq<char>) -> Seq<Seq<char>> {
    split_ws_rec(s, Seq::empty(), Seq::empty())
}

/// Splits `s` into its whitespace-separated tokens.
pub fn tokenize(s: &str) -> (toks: Vec<String>)
    ensures
        toks.deep_view() == split_ws(s@),
{
    let n = s.unicode_len();
    let mut toks: Vec<String> = Vec::new();
    let mut i: usize = 0;
    let mut start: usize = 0;
    let mut in_tok: bool = false;
    proof {
        assert(s@.skip(0) =~= s@);
        assert(toks.deep_view() =~= Seq::<Seq<char>>::empty());
    }
    while i < n
        invariant
            n == s@.len(),
            i <= n,
            in_tok ==> start < i,
            split_ws(s@) == split_ws_rec(
                s@.skip(i as int),
                if in_tok { s@.subrange(start as int, i as int) } else { Seq::<char>::empty() },
                toks.deep_view(),
            ),
        decreases n - i,
    {
        let ghost tail = s@.skip(i as int);
        let ghost cur: Seq<char> = if in_tok {
            s@.subrange(start as int, i as int)
        } else {
            Seq::<char>::empty()
        };
        let c = s.get_char(i);
        proof {
            assert(tail[0] == s@[i as int]);
            assert(tail.drop_first() =~= s@.skip(i as int + 1));
        }
        if is_space_char(c) {
            if in_tok {
                let t = s.substring_char(start, i).to_owned();
                proof {
                    assert(toks.deep_view().push(t@) =~= toks.deep_view().push(cur));
                }
                let ghost old_deep = toks.deep_view();
                toks.push(t);
                proof {
                    assert(toks.deep_view() =~= old_deep.push(cur));
                }
                in_tok = false;
            }
        } else {
            if !in_tok {
                start = i;
                in_tok = true;
            } else {
                proof {
                    assert(s@.subrange(start as int, i as int + 1) =~= cur.push(s@[i as int]));
                }
            }
        }
        proof {
            if in_tok && start == i {
                assert(s@.subrange(start as int, i as int + 1) =~= Seq::<char>::empty().push(
                    s@[i as int],
                ));
            }
        }
        i += 1;
    }
    proof {
        assert(s@.skip(n as int) =~= Seq::<char>::empty());
    }
    if in_tok {
        let t = s.substring_char(start, n).to_owned();
        let ghost old_deep = toks.deep_view();
        toks.push(t);
        proof {
            assert(toks.deep_view() =~= old_deep.push(s@.subrange(start as int, n as int)));
        }
    }
    toks
}

/// The tokens of `xs` joined with a single `sep` between neighbours.
pub open spec fn join_with(sep: char, xs: Seq<Seq<char>>) -> Seq<char>
    decreases xs.len(),
{
    if xs.len() == 0 {
        Seq::empty()
    } else if xs.len() == 1 {
        xs[0]
    } else {
        xs[0] + seq![sep] + join_with(sep, xs.drop_first())
    }
}

pub proof fn lemma_join_with_push(sep: char, xs: Seq<Seq<char>>, x: Seq<char>)
    ensures
        join_with(sep, xs.push(x)) == if xs.len() == 0 {
            x
        } else {
            join_with(sep, xs) + seq![sep] + x
        },
    decreases xs.len(),
{
    if xs.len() == 0 {
        assert(xs.push(x)[0] == x);
    } else if xs.len() == 1 {
        assert(xs.push(x).drop_first() =~= seq![x]);
        assert(xs.push(x)[0] == xs[0]);
        assert(join_with(sep, seq![x]) == x);
    } else {
        assert(xs.push(x).drop_first() =~= xs.drop_first().push(x));
        assert(xs.push(x)[0] == xs[0]);
        lemma_join_with_push(sep, xs.drop_first(), x);
        assert(xs[0] + seq![sep] + (join_with(sep, xs.drop_first()) + seq![sep] + x) =~= (xs[0]
            + seq![sep] + join_with(sep, xs.drop_first())) + seq![sep] + x);
    }
}

/// Joins `toks[from..to]` with single spaces.
pub fn join_range(toks: &Vec<String>, from: usize, to: usize) -> (r: String)
    requires
        from <= to <= toks@.len(),
    ensures
        r@ == join_with(' ', toks.deep_view().subrange(from as int, to as int)),
{
    let mut r = String::new();
    let mut i: usize = from;
    while i < to
        invariant
            from <= i <= to <= toks@.len(),
            r@ == join_with(' ', toks.deep_view().subrange(from as int, i as int)),
        decreases to - i,
    {
        let ghost pre = toks.deep_view().subrange(from as int, i as int);
        proof {
            assert(toks.deep_view().subrange(from as int, i as int + 1) =~= pre.push(
                toks.deep_view()[i as int],
            ));
            lemma_join_with_push(' ', pre, toks.deep_view()[i as int]);
        }
        if i > from {
            r.append(" ");
            proof {
                reveal_strlit(" ");
                assert(" "@ =~= seq![' ']);
            }
        }
        r.append(toks[i].as_str());
        proof {
            if i == from {
                assert(pre.len() == 0);
            }
        }
        i += 1;
    }
    r
}

/// Decimal digit characters.
pub open spec fn is_digit(c: char) -> bool {
    48 <= c as u32 && c as u32 <= 57
}

pub open spec fn digit_val(c: char) -> int {
    c as u32 - 48
}

/// The number written by a run of digits, most significant first.
pub open spec fn digits_val(s: Seq<char>) -> int
    decreases s.len(),
{
    if s.len() == 0 {
        0
    } else {
        digits_val(s.drop_last()) * 10 + digit_val(s.last())
    }
}

pub open spec fn all_digits(s: Seq<char>) -> bool {
    forall|i: int| 0 <= i < s.len() ==> is_digit(s[i])
}

pub open spec fn digit_char(d: int) -> char {
    ((48 + d) as u8) as char
}

/// The canonical decimal digits of `n`: no leading zeros.
pub open spec fn u32_digits(n: u32) -> Seq<char>
    decreases n,
{
    if n < 10 {
        seq![digit_char(n as int)]
    } else {
        u32_digits(n / 10).push(digit_char((n % 10) as int))
    }
}

pub proof fn lemma_digits_val_nonneg(s: Seq<char>)
    requires
        all_digits(s),
    ensures
        digits_val(s) >= 0,
    decreases s.len(),
{
    if s.len() > 0 {
        assert(all_digits(s.drop_last()));
        lemma_digits_val_nonneg(s.drop_last());
    }
}

/// A digit run's value only grows as more digits are read.
pub proof fn lemma_digits_val_mono(s: Seq<char>, i: int)
    requires
        all_digits(s),
        0 <= i <= s.len(),
    ensures
        digits_val(s.subrange(0, i)) <= digits_val(s),
    decreases s.len() - i,
{
    if i == s.len() {
        assert(s.subrange(0, i) =~= s);
    } else {
        let a = s.subrange(0, i);
        let b = s.subrange(0, i + 1);
        assert(b.drop_last() =~= a);
        assert(all_digits(a));
        lemma_digits_val_nonneg(a);
        assert(digits_val(b) == digits_val(a) * 10 + digit_val(b.last()));
        assert(digits_val(a) * 10 >= digits_val(a));
        lemma_digits_val_mono(s, i + 1);
    }
}

/// The digits of `n` read back as the value `n`.
pub proof fn lemma_u32_digits_val(n: u32)
    ensures
        all_digits(u32_digits(n)),
        u32_digits(n).len() >= 1,
        digits_val(u32_digits(n)) == n,
    decreases n,
{
    if n < 10 {
        assert(u32_digits(n) =~= seq![digit_char(n as int)]);
        assert(digit_val(digit_char(n as int)) == n);
        assert(u32_digits(n).drop_last() =~= Seq::<char>::empty());
        assert(u32_digits(n).last() == digit_char(n as int));
        assert(digits_val(u32_digits(n)) == digits_val(Seq::<char>::empty()) * 10 + digit_val(
            digit_char(n as int),
        ));
        assert(digits_val(u32_digits(n)) == n);
    } else {
        lemma_u32_digits_val(n / 10);
        let s = u32_digits(n);
        assert(s.drop_last() =~= u32_digits(n / 10));
        assert(s.last() == digit_char((n % 10) as int));
        assert(digit_val(digit_char((n % 10) as int)) == n % 10);
        assert(digits_val(s) == (n / 10) * 10 + n % 10);
        assert(n == (n / 10) * 10 + n % 10) by (nonlinear_arith);
    }
}

/// Reads `s@[from..to]` as a decimal number: `Some` exactly when the range is
/// a nonempty run of digits whose value fits in `u32`.
pub fn parse_u32_range(s: &str, from: usize, to: usize) -> (r: Option<u32>)
    requires
        from <= to <= s@.len(),
    ensures
        ({
            let run = s@.subrange(from as int, to as int);
            match r {
                Some(v) => from < to && all_digits(run) && digits_val(run) == v,
                None => !(from < to && all_digits(run) && digits_val(run) <= u32::MAX),
            }
        }),
{
    let ghost run = s@.subrange(from as int, to as int);
    if from == to {
        return None;
    }
    let mut val: u64 = 0;
    let mut i: usize = from;
    while i < to
        invariant
            from <= i <= to <= s@.len(),
            run == s@.subrange(from as int, to as int),
            all_digits(run.subrange(0, i - from)),
            val == digits_val(run.subrange(0, i - from)),
            val <= u32::MAX,
        decreases to - i,
    {
        let ghost pre = run.subrange(0, i - from);
        let c = s.get_char(i);
        proof {
            assert(run[i - from] == s@[i as int]);
            assert(run.subrange(0, i - from + 1).drop_last() =~= pre);
            assert(run.subrange(0, i - from + 1).last() == run[i - from]);
        }
        let cv = c as u32;
        if cv < 48 || cv > 57 {
            proof {
                assert(!is_digit(run[i - from]));
            }
            return None;
        }
        let d: u64 = (cv - 48) as u64;
        let next: u64 = val * 10 + d;
        if next > u32::MAX as u64 {
            proof {
                if all_digits(run) {
                    lemma_digits_val_mono(run, i - from + 1);
                }
            }
            return None;
        }
        val = next;
        i += 1;
    }
    proof {
        assert(run.subrange(0, to - from) =~= run);
    }
    Some(val as u32)
}

/// Relies on `String::push`: appends exactly the one character `c`.
#[verifier::external_body]
pub(crate) fn push_char(s: &mut String, c: char)
    ensures
        final(s)@ == old(s)@.push(c),
{
    s.push(c)
}

/// Appends the decimal digits of `n`.
pub fn push_u32(out: &mut String, n: u32)
    ensures
        final(out)@ == old(out)@ + u32_digits(n),
    decreases n,
{
    if n < 10 {
        push_char(out, ((48 + n) as u8) as char);
        proof {
            assert(old(out)@.push(digit_char(n as int)) =~= old(out)@ + u32_digits(n));
        }
    } else {
        push_u32(out, n / 10);
        push_char(out, ((48 + (n % 10)) as u8) as char);
        proof {
            assert((old(out)@ + u32_digits(n / 10)).push(digit_char((n % 10) as int)) =~= old(
                out,
            )@ + u32_digits(n));
        }
    }
}

/// Whether token `t` is the word `lit`.
pub(crate) fn word_eq(t: &String, lit: &str) -> (b: bool)
    ensures
        b == (t@ == lit@),
{
    t.eq(&lit.to_owned())
}

} // verus!
