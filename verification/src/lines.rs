//! The lines of a program file to evaluate: its lines, without the blank
//! ones.

use crate::lexer::chars_of;
use crate::text::{split, split_after, lemma_split_step};
use vstd::prelude::*;
use vstd::string::StrSliceExecFns;

verus! {

/// Whether `c` has the Unicode `White_Space` property (what `char::is_whitespace`
/// and `str::trim` go by).
pub open spec fn is_white_space(c: char) -> bool {
    let u = c as u32;
    ||| 0x9 <= u <= 0xD
    ||| u == 0x20
    ||| u == 0x85
    ||| u == 0xA0
    ||| u == 0x1680
    ||| 0x2000 <= u <= 0x200A
    ||| u == 0x2028
    ||| u == 0x2029
    ||| u == 0x202F
    ||| u == 0x205F
    ||| u == 0x3000
}

/// Whether a line holds nothing but white space.
pub open spec fn is_blank(l: Seq<char>) -> bool {
    forall|i: int| 0 <= i < l.len() ==> is_white_space(#[trigger] l[i])
}

/// The lines of `cs` (split at `\n`) that are not blank, in order.
pub open spec fn program_lines(cs: Seq<char>) -> Seq<Seq<char>> {
    split(cs, '\n').filter(|l: Seq<char>| !is_blank(l))
}

fn white_space(c: char) -> (r: bool)
    ensures
        r == is_white_space(c),
{
    let u = c as u32;
    (0x9 <= u && u <= 0xD) || u == 0x20 || u == 0x85 || u == 0xA0 || u == 0x1680 || (0x2000 <= u
        && u <= 0x200A) || u == 0x2028 || u == 0x2029 || u == 0x202F || u == 0x205F || u == 0x3000
}

fn blank(cs: &Vec<char>, start: usize, end: usize) -> (r: bool)
    requires
        start <= end <= cs@.len(),
    ensures
        r == is_blank(cs@.subrange(start as int, end as int)),
{
    let ghost l = cs@.subrange(start as int, end as int);
    let mut j: usize = start;
    while j < end
        invariant
            start <= j <= end <= cs@.len(),
            l == cs@.subrange(start as int, end as int),
            forall|k: int| 0 <= k < j - start ==> is_white_space(#[trigger] l[k]),
        decreases end - j,
    {
        if !white_space(cs[j]) {
            assert(l[j - start] == cs@[j as int]);
            return false;
        }
        assert(l[j - start] == cs@[j as int]);
        j = j + 1;
    }
    true
}

/// The lines kept while scanning `cs` from `i`, in a line that started at
/// `start`.
spec fn kept_from(cs: Seq<char>, start: nat, i: nat) -> Seq<Seq<char>>
    decreases cs.len() - i,
{
    if i >= cs.len() {
        seq![cs.subrange(start as int, cs.len() as int)].filter(|l: Seq<char>| !is_blank(l))
    } else if cs[i as int] == '\n' {
        seq![cs.subrange(start as int, i as int)].filter(|l: Seq<char>| !is_blank(l)) + kept_from(
            cs,
            i + 1,
            i + 1,
        )
    } else {
        kept_from(cs, start, i + 1)
    }
}

proof fn lemma_kept_from(cs: Seq<char>, start: nat, i: nat)
    requires
        start <= i <= cs.len(),
    ensures
        kept_from(cs, start, i) == split_after(cs, '\n', start, i).filter(
            |l: Seq<char>| !is_blank(l),
        ),
    decreases cs.len() - i,
{
    lemma_split_step(cs, '\n', start, i);
    if i < cs.len() {
        if cs[i as int] == '\n' {
            lemma_kept_from(cs, i + 1, i + 1);
            Seq::filter_distributes_over_add(
                seq![cs.subrange(start as int, i as int)],
                split_after(cs, '\n', i + 1, i + 1),
                |l: Seq<char>| !is_blank(l),
            );
        } else {
            lemma_kept_from(cs, start, i + 1);
        }
    }
}

/// The lines of the program text `text` to evaluate: every line (the text
/// split at `\n`) that is not blank, in order.
pub fn program_text_lines(text: &str) -> (r: Vec<String>)
    ensures
        r@.map_values(|s: String| s@) == program_lines(text@),
{
    let cs = chars_of(text);
    let mut out: Vec<String> = Vec::new();
    let mut start: usize = 0;
    let mut i: usize = 0;
    proof {
        lemma_kept_from(cs@, 0, 0);
        lemma_split_step(cs@, '\n', 0, 0);
    }
    while i < cs.len()
        invariant
            start <= i <= cs@.len(),
            cs@ == text@,
            program_lines(text@) == out@.map_values(|s: String| s@) + kept_from(
                cs@,
                start as nat,
                i as nat,
            ),
        decreases cs@.len() - i,
    {
        if cs[i] == '\n' {
            let ghost l = cs@.subrange(start as int, i as int);
            let ghost before = out@.map_values(|s: String| s@);
            if !blank(&cs, start, i) {
                let line = text.substring_char(start, i).to_owned();
                out.push(line);
                proof {
                    assert(seq![l].filter(|l: Seq<char>| !is_blank(l)) =~= seq![l]) by {
                        reveal_with_fuel(Seq::filter, 2);
                    }
                    assert(out@.map_values(|s: String| s@) =~= before.push(l));
                    assert(before + (seq![l] + kept_from(cs@, (i + 1) as nat, (i + 1) as nat))
                        =~= before.push(l) + kept_from(cs@, (i + 1) as nat, (i + 1) as nat));
                }
            } else {
                proof {
                    assert(seq![l].filter(|l: Seq<char>| !is_blank(l)) =~= Seq::<Seq<char>>::empty()) by {
                        reveal_with_fuel(Seq::filter, 2);
                    }
                    assert(Seq::<Seq<char>>::empty() + kept_from(cs@, (i + 1) as nat, (i + 1) as nat)
                        =~= kept_from(cs@, (i + 1) as nat, (i + 1) as nat));
                }
            }
            i = i + 1;
            start = i;
        } else {
            i = i + 1;
        }
    }
    let ghost l = cs@.subrange(start as int, cs@.len() as int);
    let ghost before = out@.map_values(|s: String| s@);
    if !blank(&cs, start, cs.len()) {
        let line = text.substring_char(start, cs.len()).to_owned();
        out.push(line);
        proof {
            assert(seq![l].filter(|l: Seq<char>| !is_blank(l)) =~= seq![l]) by {
                reveal_with_fuel(Seq::filter, 2);
            }
            assert(out@.map_values(|s: String| s@) =~= before + seq![l]);
        }
    } else {
        proof {
            assert(seq![l].filter(|l: Seq<char>| !is_blank(l)) =~= Seq::<Seq<char>>::empty()) by {
                reveal_with_fuel(Seq::filter, 2);
            }
            assert(before + Seq::<Seq<char>>::empty() =~= before);
        }
    }
    out
}


/// White space is what Unicode calls `White_Space`: tab, line feed,
/// vertical tab, form feed, carriage return, space, next line, no-break
/// space, ogham space mark, the spaces U+2000 to U+200A, the line and
/// paragraph separators, narrow no-break space, medium mathematical space
/// and ideographic space.
pub proof fn law_white_space(c: char)
    ensures
        is_white_space(c) <==> (c == '\t' || c == '\n' || c == '\u{0B}' || c == '\u{0C}' || c
            == '\r' || c == ' ' || c == '\u{85}' || c == '\u{A0}' || c == '\u{1680}' || ('\u{2000}'
            <= c <= '\u{200A}') || c == '\u{2028}' || c == '\u{2029}' || c == '\u{202F}' || c
            == '\u{205F}' || c == '\u{3000}'),
{
}

/// No line to run is blank: each holds a character other than spaces,
/// tabs and carriage returns (so the lines of a file saved with `\r\n`
/// line ends that hold nothing else are dropped).
pub proof fn law_program_lines_not_blank(cs: Seq<char>, l: Seq<char>)
    requires
        program_lines(cs).contains(l),
    ensures
        exists|j: int| 0 <= j < l.len() && #[trigger] l[j] != ' ' && l[j] != '\t' && l[j] != '\r',
{
    let pred = |l: Seq<char>| !is_blank(l);
    let i = choose|i: int| 0 <= i < program_lines(cs).len() && program_lines(cs)[i] == l;
    split(cs, '\n').lemma_filter_pred(pred, i);
    assert(!is_blank(l));
    let j = choose|j: int| 0 <= j < l.len() && !is_white_space(l[j]);
    assert(l[j] != ' ' && l[j] != '\t' && l[j] != '\r');
}

} // verus!
