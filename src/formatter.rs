//! Rewrites ASCII mnemonics into the symbols the parser reads.
use crate::parser::chars_of;
use vstd::prelude::*;

verus! {

/// `s` with every occurrence of `from`, left to right and not overlapping,
/// replaced by `to`.
pub open spec fn replace_all(s: Seq<char>, from: Seq<char>, to: Seq<char>) -> Seq<char>
    decreases s.len(),
{
    if from.len() == 0 || s.len() == 0 {
        s
    } else if from.len() <= s.len() && s.take(from.len() as int) == from {
        to + replace_all(s.skip(from.len() as int), from, to)
    } else {
        seq![s[0]] + replace_all(s.skip(1), from, to)
    }
}

/// The replacements made one after another, in the order of `table`.
pub open spec fn replace_each(s: Seq<char>, table: Seq<(Seq<char>, Seq<char>)>) -> Seq<char>
    decreases table.len(),
{
    if table.len() == 0 {
        s
    } else {
        replace_each(replace_all(s, table[0].0, table[0].1), table.skip(1))
    }
}

/// The mnemonics and their symbols, longest mnemonic first.
pub open spec fn symbol_table() -> Seq<(Seq<char>, Seq<char>)> {
    seq![
        ("factorial"@, "!"@),
        ("infinity"@, "∞"@),
        ("epsilon"@, "ε"@),
        ("inverse"@, "⁻¹"@),
        ("alpha"@, "α"@),
        ("croot"@, "∛"@),
        ("iota"@, "ι"@),
        ("flip"@, "↕"@),
        ("swap"@, "↔"@),
        ("cbrt"@, "∛"@),
        ("sqrt"@, "√"@),
        ("root"@, "√"@),
        ("sinh"@, "ⓔ"@),
        ("sins"@, "Ⓞ"@),
        ("tau"@, "τ"@),
        ("pow"@, "ⁿ"@),
        ("log"@, "ₙ"@),
        ("sin"@, "◯"@),
        ("pi"@, "π"@),
        ("_"@, "‿"@),
        (":"@, "↕"@),
        ("`"@, "⁻"@),
        ("*"@, "×"@),
        ("%"@, "÷"@),
    ]
}

/// A source text and the replacements to make in it.
pub struct Formatter {
    pub src: String,
    pub symbols: Vec<(&'static str, &'static str)>,
}

/// Relies on `String::push`: appends `c` to `s`.
#[verifier::external_body]
fn push_char(s: &mut String, c: char)
    ensures
        final(s)@ == old(s)@.push(c),
{
    s.push(c)
}

/// `s` starts, at `i`, with `from`.
fn matches_at(s: &Vec<char>, i: usize, from: &Vec<char>) -> (r: bool)
    requires
        i <= s.len(),
    ensures
        r == (from.len() <= s.len() - i && s@.skip(i as int).take(from.len() as int) == from@),
{
    if from.len() > s.len() - i {
        return false;
    }
    let mut k: usize = 0;
    while k < from.len()
        invariant
            from.len() <= s.len() - i,
            k <= from.len(),
            forall|m: int| 0 <= m < k ==> s@[i + m] == from@[m],
        decreases from.len() - k,
    {
        if s[i + k] != from[k] {
            proof {
                assert(s@.skip(i as int).take(from.len() as int)[k as int] != from@[k as int]);
            }
            return false;
        }
        k += 1;
    }
    proof {
        assert(s@.skip(i as int).take(from.len() as int) =~= from@);
    }
    true
}

/// Replaces every occurrence of `from` in `s` by `to`.
pub fn replace_chars(s: &Vec<char>, from: &Vec<char>, to: &Vec<char>) -> (r: Vec<char>)
    ensures
        r@ == replace_all(s@, from@, to@),
{
    let mut out: Vec<char> = Vec::new();
    let mut i: usize = 0;
    proof {
        assert(s@.skip(0) =~= s@);
        assert(out@ + replace_all(s@, from@, to@) =~= replace_all(s@, from@, to@));
    }
    while i < s.len()
        invariant
            i <= s.len(),
            out@ + replace_all(s@.skip(i as int), from@, to@) == replace_all(s@, from@, to@),
        decreases s.len() - i,
    {
        let ghost rest = s@.skip(i as int);
        if from.len() > 0 && matches_at(s, i, from) {
            let mut k: usize = 0;
            let ghost out0 = out@;
            while k < to.len()
                invariant
                    k <= to.len(),
                    out@ == out0 + to@.take(k as int),
                decreases to.len() - k,
            {
                out.push(to[k]);
                proof {
                    assert(to@.take(k as int + 1) =~= to@.take(k as int).push(to@[k as int]));
                }
                k += 1;
            }
            proof {
                assert(to@.take(to.len() as int) =~= to@);
                assert(rest.skip(from.len() as int) =~= s@.skip(i + from.len()));
                assert(replace_all(rest, from@, to@) == to@ + replace_all(rest.skip(from.len() as int), from@, to@));
                assert(out@ + replace_all(s@.skip(i + from.len()), from@, to@) =~= out0 + replace_all(rest, from@, to@));
            }
            i = i + from.len();
        } else {
            let ghost out0 = out@;
            out.push(s[i]);
            proof {
                assert(rest.skip(1) =~= s@.skip(i + 1));
                assert(rest[0] == s@[i as int]);
                assert(replace_all(rest, from@, to@) == seq![rest[0]] + replace_all(rest.skip(1), from@, to@));
                assert(out@ + replace_all(s@.skip(i + 1), from@, to@) =~= out0 + replace_all(rest, from@, to@));
            }
            i += 1;
        }
    }
    proof {
        assert(s@.skip(i as int) =~= Seq::<char>::empty());
        assert(out@ + Seq::<char>::empty() =~= out@);
    }
    out
}

impl Formatter {
    pub open spec fn table_view(&self) -> Seq<(Seq<char>, Seq<char>)> {
        Seq::new(self.symbols.len() as nat, |i: int| (self.symbols@[i].0@, self.symbols@[i].1@))
    }

    pub fn new(src: String) -> (r: Formatter)
        ensures
            r.src@ == src@,
            r.table_view() == symbol_table(),
    {
        let symbols: Vec<(&'static str, &'static str)> = vec![
            ("factorial", "!"),
            ("infinity", "∞"),
            ("epsilon", "ε"),
            ("inverse", "⁻¹"),
            ("alpha", "α"),
            ("croot", "∛"),
            ("iota", "ι"),
            ("flip", "↕"),
            ("swap", "↔"),
            ("cbrt", "∛"),
            ("sqrt", "√"),
            ("root", "√"),
            ("sinh", "ⓔ"),
            ("sins", "Ⓞ"),
            ("tau", "τ"),
            ("pow", "ⁿ"),
            ("log", "ₙ"),
            ("sin", "◯"),
            ("pi", "π"),
            ("_", "‿"),
            (":", "↕"),
            ("`", "⁻"),
            ("*", "×"),
            ("%", "÷"),
        ];
        let r = Formatter { src, symbols };
        proof {
            assert(r.table_view() =~= symbol_table());
        }
        r
    }

    /// The source with every mnemonic replaced, longest mnemonic first.
    pub fn format(&mut self) -> (r: String)
        ensures
            r@ == replace_each(old(self).src@, old(self).table_view()),
            final(self).src == old(self).src,
            final(self).symbols == old(self).symbols,
    {
        let mut cur = chars_of(self.src.as_str());
        let mut k: usize = 0;
        proof {
            assert(self.table_view().skip(0) =~= self.table_view());
        }
        while k < self.symbols.len()
            invariant
                k <= self.symbols.len(),
                replace_each(cur@, self.table_view().skip(k as int)) == replace_each(
                    self.src@,
                    self.table_view(),
                ),
            decreases self.symbols.len() - k,
        {
            let from = chars_of(self.symbols[k].0);
            let to = chars_of(self.symbols[k].1);
            let ghost t = self.table_view().skip(k as int);
            proof {
                assert(t[0] == (from@, to@));
                assert(t.skip(1) =~= self.table_view().skip(k + 1));
            }
            cur = replace_chars(&cur, &from, &to);
            k += 1;
        }
        proof {
            assert(self.table_view().skip(k as int) =~= Seq::<(Seq<char>, Seq<char>)>::empty());
        }
        let mut out = String::new();
        let mut i: usize = 0;
        while i < cur.len()
            invariant
                i <= cur.len(),
                out@ == cur@.take(i as int),
            decreases cur.len() - i,
        {
            push_char(&mut out, cur[i]);
            proof {
                assert(cur@.take(i as int + 1) =~= cur@.take(i as int).push(cur@[i as int]));
            }
            i += 1;
        }
        proof {
            assert(cur@.take(i as int) =~= cur@);
        }
        out
    }
}

} // verus!
