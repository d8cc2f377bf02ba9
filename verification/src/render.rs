//! The text of a solution: three aligned rows, and for each slot that is left
//! as a variable the letters that stand for it and the digits they may take.

use crate::solution::{Described, Solution};
use vstd::prelude::*;
use vstd::string::StringExecFns;

verus! {

/// `String::push` with `char::from`: appends the character whose code is `b`.
#[verifier::external_body]
fn push_code(s: &mut String, b: u8)
    ensures
        final(s)@ == old(s)@.push(b as char),
{
    s.push(char::from(b))
}

/// The code of the decimal digit `d`.
pub open spec fn digit_code(d: u8) -> u8 {
    (48 + d) as u8
}

/// The code of the letter of the `k`-th variable: `a` to `h`, then `j` on, so
/// that `i` names no variable.
pub open spec fn letter_code(k: int) -> u8 {
    if k < 8 {
        (97 + k) as u8
    } else {
        (98 + k) as u8
    }
}

/// The number of variables among the first `i` entries.
pub open spec fn var_rank(e: Seq<(u8, u8, Described)>, i: int) -> nat
    decreases i,
{
    if i <= 0 {
        0
    } else {
        var_rank(e, i - 1) + if e[i - 1].2 is Var {
            1nat
        } else {
            0nat
        }
    }
}

/// The characters with the given codes.
pub open spec fn chars_of(codes: Seq<u8>) -> Seq<char> {
    Seq::new(codes.len(), |i: int| codes[i] as char)
}

/// The repetition counts, one digit each.
pub open spec fn reps_row(e: Seq<(u8, u8, Described)>) -> Seq<u8> {
    Seq::new(e.len(), |i: int| digit_code(e[i].0))
}

/// The descriptors, one digit each.
pub open spec fn descriptors_row(e: Seq<(u8, u8, Described)>) -> Seq<u8> {
    Seq::new(e.len(), |i: int| digit_code(e[i].1))
}

/// What each entry describes: its digit, or the letter of its variable.
pub open spec fn digits_row(e: Seq<(u8, u8, Described)>) -> Seq<u8> {
    Seq::new(
        e.len(),
        |i: int|
            match e[i].2 {
                Described::Digit(d) => digit_code(d),
                Described::Var(_) => letter_code(var_rank(e, i) as int),
            },
    )
}

/// The letters of the variables of slot `s` among the first `n` entries.
pub open spec fn letters_of(e: Seq<(u8, u8, Described)>, s: u8, n: int) -> Seq<u8>
    decreases n,
{
    if n <= 0 {
        Seq::empty()
    } else {
        let before = letters_of(e, s, n - 1);
        if e[n - 1].2 == Described::Var(s) {
            before.push(letter_code(var_rank(e, n - 1) as int))
        } else {
            before
        }
    }
}

/// The first `n` items, each followed by a comma and a blank.
pub open spec fn separated(items: Seq<u8>, n: int) -> Seq<char>
    decreases n,
{
    if n <= 0 {
        Seq::empty()
    } else {
        separated(items, n - 1).push(items[n - 1] as char) + ", "@
    }
}

/// The items with a comma and a blank between them.
pub open spec fn joined(items: Seq<u8>) -> Seq<char> {
    if items.len() == 0 {
        Seq::empty()
    } else {
        separated(items, items.len() - 1).push(items.last() as char)
    }
}

/// The decimal digits of `ds`.
pub open spec fn digit_codes(ds: Seq<u8>) -> Seq<u8> {
    Seq::new(ds.len(), |i: int| digit_code(ds[i]))
}

/// The line of one variable slot: its letters, and the digits they may take.
pub open spec fn where_line(e: Seq<(u8, u8, Described)>, var: (u8, Seq<u8>)) -> Seq<char> {
    "  {"@ + joined(letters_of(e, var.0, e.len() as int)) + "} \u{e2}\u{160}\u{2020} {"@ + joined(
        digit_codes(var.1),
    ) + "}\n"@
}

/// The lines of the slots from position `k` on, last slot first.
pub open spec fn where_lines(e: Seq<(u8, u8, Described)>, vars: Seq<(u8, Seq<u8>)>, k: int) -> Seq<
    char,
>
    decreases vars.len() - k,
{
    if k >= vars.len() {
        Seq::empty()
    } else {
        where_lines(e, vars, k + 1) + where_line(e, vars[k])
    }
}

/// The text of a solution.
pub open spec fn rendered(e: Seq<(u8, u8, Described)>, vars: Seq<(u8, Seq<u8>)>) -> Seq<char> {
    let rows = "reps:        "@ + chars_of(reps_row(e)) + "\ndescriptors: "@ + chars_of(
        descriptors_row(e),
    ) + "\ndigits:      "@ + chars_of(digits_row(e)) + "\n"@;
    if vars.len() == 0 {
        rows
    } else {
        rows + "where\n"@ + where_lines(e, vars, 0)
    }
}

/// Every number of the solution is a single decimal digit, and the entries are
/// few enough for the letters.
pub open spec fn printable(e: Seq<(u8, u8, Described)>, vars: Seq<(u8, Seq<u8>)>) -> bool {
    &&& e.len() <= 10
    &&& forall|i: int|
        0 <= i < e.len() ==> (#[trigger] e[i]).0 <= 9 && e[i].1 <= 9 && (e[i].2 matches Described::Digit(
            x,
        ) ==> x <= 9)
    &&& forall|k: int, j: int|
        0 <= k < vars.len() && 0 <= j < vars[k].1.len() ==> #[trigger] vars[k].1[j] <= 9
}

/// Appends the characters with the given codes.
fn push_codes(out: &mut String, codes: &Vec<u8>)
    ensures
        final(out)@ == old(out)@ + chars_of(codes@),
{
    let ghost base = out@;
    let mut i: usize = 0;
    assert(base + chars_of(codes@).subrange(0, 0) =~= base);
    while i < codes.len()
        invariant
            i <= codes.len(),
            out@ == base + chars_of(codes@).subrange(0, i as int),
        decreases codes.len() - i,
    {
        push_code(out, codes[i]);
        assert(out@ =~= base + chars_of(codes@).subrange(0, i + 1));
        i = i + 1;
    }
    assert(chars_of(codes@).subrange(0, codes.len() as int) =~= chars_of(codes@));
}

/// Appends the items with a comma and a blank between them.
fn push_joined(out: &mut String, items: &Vec<u8>)
    ensures
        final(out)@ == old(out)@ + joined(items@),
{
    let ghost base = out@;
    let n = items.len();
    let mut i: usize = 0;
    assert(base + separated(items@, 0) =~= base);
    while i < n
        invariant
            i <= n,
            n == items.len(),
            i < n ==> out@ == base + separated(items@, i as int),
            i == n ==> out@ == base + joined(items@),
        decreases n - i,
    {
        let ghost before = out@;
        push_code(out, items[i]);
        if i < n - 1 {
            out.append(", ");
            assert(out@ =~= base + separated(items@, i + 1));
        } else {
            assert(out@ =~= base + joined(items@));
        }
        i = i + 1;
    }
}

impl Solution {
    /// The solution can be written with one character for each number.
    pub open spec fn is_printable(&self) -> bool {
        printable(self.entries(), self.vars())
    }

    /// The letters of the entries that are variables of slot `s`, in order.
    fn letters(&self, s: u8) -> (out: Vec<u8>)
        requires
            self.is_printable(),
        ensures
            out@ == letters_of(self.entries(), s, self.entries().len() as int),
    {
        let entries = self.best_solution();
        let mut out: Vec<u8> = Vec::new();
        let mut count: u8 = 0;
        let mut i: usize = 0;
        while i < entries.len()
            invariant
                i <= entries.len(),
                entries.len() <= 10,
                entries@ == self.entries(),
                count == var_rank(entries@, i as int),
                count <= i,
                out@ == letters_of(entries@, s, i as int),
            decreases entries.len() - i,
        {
            match entries[i].2 {
                Described::Digit(_) => {},
                Described::Var(v) => {
                    if v == s {
                        out.push(if count < 8 {
                            97 + count
                        } else {
                            98 + count
                        });
                    }
                    count = count + 1;
                },
            }
            i = i + 1;
        }
        out
    }

    /// Writes the solution: the repetition counts, the descriptors and the
    /// digits in three rows, a column for each entry, variables as letters in
    /// the order in which they occur; then, if any slot is left as a variable,
    /// `where` and a line for each such slot, largest slot first.
    pub fn render(&self) -> (out: String)
        requires
            self.is_printable(),
        ensures
            out@ == rendered(self.entries(), self.vars()),
    {
        let entries = self.best_solution();
        let vars = self.var_sets();
        let ghost e = self.entries();
        let ghost vs = self.vars();
        let n = entries.len();
        let mut reps: Vec<u8> = Vec::new();
        let mut descriptors: Vec<u8> = Vec::new();
        let mut digits: Vec<u8> = Vec::new();
        let mut count: u8 = 0;
        let mut i: usize = 0;
        while i < n
            invariant
                i <= n,
                n == entries.len(),
                n <= 10,
                entries@ == e,
                printable(e, vs),
                count == var_rank(e, i as int),
                count <= i,
                reps@ == reps_row(e).subrange(0, i as int),
                descriptors@ == descriptors_row(e).subrange(0, i as int),
                digits@ == digits_row(e).subrange(0, i as int),
            decreases n - i,
        {
            assert(e[i as int].0 <= 9 && e[i as int].1 <= 9);
            let ghost r0 = reps@;
            let ghost d0 = descriptors@;
            let ghost g0 = digits@;
            reps.push(48 + entries[i].0);
            descriptors.push(48 + entries[i].1);
            match entries[i].2 {
                Described::Digit(d) => {
                    digits.push(48 + d);
                },
                Described::Var(_) => {
                    digits.push(if count < 8 {
                        97 + count
                    } else {
                        98 + count
                    });
                    count = count + 1;
                },
            }
            assert(reps@ =~= reps_row(e).subrange(0, i + 1));
            assert(descriptors@ =~= descriptors_row(e).subrange(0, i + 1));
            assert(digits@ =~= digits_row(e).subrange(0, i + 1));
            i = i + 1;
        }
        assert(reps@ =~= reps_row(e));
        assert(descriptors@ =~= descriptors_row(e));
        assert(digits@ =~= digits_row(e));
        let mut out = String::from_str("reps:        ");
        push_codes(&mut out, &reps);
        out.append("\ndescriptors: ");
        push_codes(&mut out, &descriptors);
        out.append("\ndigits:      ");
        push_codes(&mut out, &digits);
        out.append("\n");
        if vars.len() != 0 {
            out.append("where\n");
            let ghost base = out@;
            let mut k: usize = vars.len();
            assert(base + where_lines(e, vs, k as int) =~= base);
            while k > 0
                invariant
                    k <= vars.len(),
                    vs == self.vars(),
                    e == self.entries(),
                    vs.len() == vars.len(),
                    crate::solution::vars_view(vars@) == vs,
                    printable(e, vs),
                    self.is_printable(),
                    out@ == base + where_lines(e, vs, k as int),
                decreases k,
            {
                k = k - 1;
                let ghost before = out@;
                let letters = self.letters(vars[k].0);
                let mut codes: Vec<u8> = Vec::new();
                let ds = &vars[k].1;
                let mut j: usize = 0;
                assert(vs[k as int] == (vars@[k as int].0, vars@[k as int].1@));
                while j < ds.len()
                    invariant
                        j <= ds.len(),
                        ds@ == vs[k as int].1,
                        0 <= k < vs.len(),
                        printable(e, vs),
                        codes@ == digit_codes(ds@).subrange(0, j as int),
                    decreases ds.len() - j,
                {
                    assert(vs[k as int].1[j as int] <= 9);
                    codes.push(48 + ds[j]);
                    assert(codes@ =~= digit_codes(ds@).subrange(0, j + 1));
                    j = j + 1;
                }
                assert(codes@ =~= digit_codes(ds@));
                out.append("  {");
                push_joined(&mut out, &letters);
                out.append("} \u{e2}\u{160}\u{2020} {");
                push_joined(&mut out, &codes);
                out.append("}\n");
                assert(out@ =~= before + where_line(e, vs[k as int]));
                assert(out@ =~= base + where_lines(e, vs, k as int));
            }
        }
        out
    }
}

} // verus!
