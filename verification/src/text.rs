//! Text helpers: the pieces of a text between separators, and the
//! decimal digits of numbers.

use vstd::prelude::*;
use vstd::string::StringExecFns;

verus! {

/// The character of the decimal digit `d` (`d < 10`).
pub open spec fn digit_char(d: nat) -> char {
    if d == 0 {
        '0'
    } else if d == 1 {
        '1'
    } else if d == 2 {
        '2'
    } else if d == 3 {
        '3'
    } else if d == 4 {
        '4'
    } else if d == 5 {
        '5'
    } else if d == 6 {
        '6'
    } else if d == 7 {
        '7'
    } else if d == 8 {
        '8'
    } else {
        '9'
    }
}

/// The decimal digits of `n`, most significant first, without leading
/// zeros (`0` is the single digit `0`).
pub open spec fn decimal(n: nat) -> Seq<char>
    decreases n,
{
    if n < 10 {
        seq![digit_char(n)]
    } else {
        decimal(n / 10).push(digit_char(n % 10))
    }
}

/// The text of the digit `d`.
fn digit_str(d: u64) -> (r: &'static str)
    requires
        d < 10,
    ensures
        r@ == seq![digit_char(d as nat)],
{
    proof {
        reveal_strlit("0");
        reveal_strlit("1");
        reveal_strlit("2");
        reveal_strlit("3");
        reveal_strlit("4");
        reveal_strlit("5");
        reveal_strlit("6");
        reveal_strlit("7");
        reveal_strlit("8");
        reveal_strlit("9");
    }
    if d == 0 {
        "0"
    } else if d == 1 {
        "1"
    } else if d == 2 {
        "2"
    } else if d == 3 {
        "3"
    } else if d == 4 {
        "4"
    } else if d == 5 {
        "5"
    } else if d == 6 {
        "6"
    } else if d == 7 {
        "7"
    } else if d == 8 {
        "8"
    } else {
        "9"
    }
}

/// The decimal digits of `n` (see `decimal`).
pub fn decimal_string(n: u64) -> (r: String)
    ensures
        r@ == decimal(n as nat),
    decreases n,
{
    if n < 10 {
        digit_str(n).to_owned()
    } else {
        let mut s = decimal_string(n / 10);
        s.append(digit_str(n % 10));
        proof {
            assert(s@ =~= decimal((n / 10) as nat).push(digit_char((n % 10) as nat)));
        }
        s
    }
}

/// The pieces of `cs` between the occurrences of `sep`, in order: one more
/// piece than there are separators (so `[""]` for an empty text), as
/// `str::split` with a one-character pattern gives them.
pub open spec fn split(cs: Seq<char>, sep: char) -> Seq<Seq<char>>
    decreases cs.len(),
{
    if cs.len() == 0 {
        seq![Seq::<char>::empty()]
    } else {
        let rest = split(cs.drop_first(), sep);
        if cs[0] == sep {
            seq![Seq::<char>::empty()] + rest
        } else {
            rest.update(0, seq![cs[0]] + rest[0])
        }
    }
}

/// There is always at least one piece.
pub proof fn lemma_split_len(cs: Seq<char>, sep: char)
    ensures
        split(cs, sep).len() >= 1,
    decreases cs.len(),
{
    if cs.len() > 0 {
        lemma_split_len(cs.drop_first(), sep);
    }
}

/// The pieces of `cs` for a scan that has reached `i` in a piece that
/// started at `start`: the pieces of `cs[i..]`, the first one after
/// `cs[start..i]`.
pub open spec fn split_after(cs: Seq<char>, sep: char, start: nat, i: nat) -> Seq<Seq<char>> {
    let t = split(cs.subrange(i as int, cs.len() as int), sep);
    t.update(0, cs.subrange(start as int, i as int) + t[0])
}

/// One step of a scan: at the end the current piece is the last; at a
/// separator the current piece ends and the rest starts afresh; at any
/// other character the scan moves on within the current piece.
pub proof fn lemma_split_step(cs: Seq<char>, sep: char, start: nat, i: nat)
    requires
        start <= i <= cs.len(),
    ensures
        i == cs.len() ==> split_after(cs, sep, start, i) == seq![
            cs.subrange(start as int, i as int),
        ],
        i < cs.len() && cs[i as int] == sep ==> split_after(cs, sep, start, i) == seq![
            cs.subrange(start as int, i as int),
        ] + split_after(cs, sep, i + 1, i + 1),
        i < cs.len() && cs[i as int] != sep ==> split_after(cs, sep, start, i) == split_after(
            cs,
            sep,
            start,
            i + 1,
        ),
        split_after(cs, sep, 0, 0) == split(cs, sep),
{
    let u = cs.subrange(i as int, cs.len() as int);
    let t0 = split(cs, sep);
    lemma_split_len(cs, sep);
    assert(cs.subrange(0, cs.len() as int) =~= cs);
    assert(cs.subrange(0, 0) + t0[0] =~= t0[0]);
    assert(t0.update(0, t0[0]) =~= t0);
    if i == cs.len() {
        assert(u =~= Seq::<char>::empty());
        assert(cs.subrange(start as int, i as int) + Seq::<char>::empty() =~= cs.subrange(
            start as int,
            i as int,
        ));
        assert(split_after(cs, sep, start, i) =~= seq![cs.subrange(start as int, i as int)]);
    } else {
        let v = cs.subrange(i + 1int, cs.len() as int);
        let r = split(v, sep);
        lemma_split_len(v, sep);
        assert(u[0] == cs[i as int]);
        assert(u.drop_first() =~= v);
        assert(cs.subrange(i + 1int, i + 1int) + r[0] =~= r[0]);
        assert(r.update(0, r[0]) =~= r);
        if cs[i as int] == sep {
            let p = cs.subrange(start as int, i as int);
            assert(p + Seq::<char>::empty() =~= p);
            assert(split_after(cs, sep, start, i) =~= seq![p] + r);
        } else {
            assert(cs.subrange(start as int, i as int) + (seq![cs[i as int]] + r[0])
                =~= cs.subrange(start as int, i + 1int) + r[0]);
        }
    }
}

} // verus!
