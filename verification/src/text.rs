//! Query normalization and report formatting.
//!
//! The search text typed by the user is normalized before it is sent to the
//! API: spaces become dashes and the whole text is lowercased. The report is
//! rendered one line per group: a multiplication sign, the multiplier with
//! trailing zeros dropped ("0", "0.5", "2"), a tab, and the group's names
//! joined by commas.

use vstd::prelude::*;
use vstd::string::StringExecFns;
use crate::matchup::Group;
use crate::matchup::TypeMatchup;
use crate::matchup::groups_match;
use crate::matchup::is_report;
use crate::matchup::lemma_groups_match_report;

verus! {

/// The query text with every space replaced by a dash.
pub open spec fn spec_dashed(s: Seq<char>) -> Seq<char> {
    s.map_values(|c: char| if c == ' ' { '-' } else { c })
}

/// What `str::to_lowercase` returns: a function of the characters alone.
pub uninterp spec fn lower_of(s: Seq<char>) -> Seq<char>;

/// Relies on str::replace: every occurrence of the matched character is
/// replaced by the replacement string, here a space by a single dash.
#[verifier::external_body]
fn space_to_dash(s: &str) -> (r: String)
    ensures
        r@ == spec_dashed(s@),
{
    s.replace(' ', "-")
}

/// Relies on str::to_lowercase: the result depends on the characters alone,
/// and an empty string stays empty.
#[verifier::external_body]
fn lowercase(s: &str) -> (r: String)
    ensures
        r@ == lower_of(s@),
        s@.len() == 0 ==> r@.len() == 0,
{
    s.to_lowercase()
}

/// Normalizes a search text for the API: spaces become dashes, then the
/// whole text is lowercased.
pub fn normalize_query(text: &str) -> (r: String)
    ensures
        r@ == lower_of(spec_dashed(text@)),
{
    let dashed = space_to_dash(text);
    lowercase(dashed.as_str())
}

/// The decimal digit character for one digit value.
pub open spec fn dec_digit(d: int) -> char {
    if d == 0 {
        '0'
    } else if d == 1 {
        '1'
    } else if d == 2 {
        '2'
    } else if d == 3 {
        '3'
    } else if d == 4 {
        '4'
    } else if d == 5 {
        '5'
    } else if d == 6 {
        '6'
    } else if d == 7 {
        '7'
    } else if d == 8 {
        '8'
    } else {
        '9'
    }
}

/// The decimal text of the whole part of a multiplier (0 to 655).
pub open spec fn whole_text(w: int) -> Seq<char> {
    if w >= 100 {
        seq![dec_digit(w / 100), dec_digit((w / 10) % 10), dec_digit(w % 10)]
    } else if w >= 10 {
        seq![dec_digit(w / 10), dec_digit(w % 10)]
    } else {
        seq![dec_digit(w)]
    }
}

/// The decimal text of the fractional part in hundredths: empty when zero,
/// one digit when a multiple of ten (the trailing zero is dropped), two
/// digits otherwise.
pub open spec fn frac_text(f: int) -> Seq<char> {
    if f == 0 {
        Seq::empty()
    } else if f % 10 == 0 {
        seq!['.', dec_digit(f / 10)]
    } else {
        seq!['.', dec_digit(f / 10), dec_digit(f % 10)]
    }
}

/// The display text of a multiplier given in hundredths, trailing zeros
/// dropped: "0", "0.5", "1", "2", "655.35".
pub open spec fn multiplier_text(h: int) -> Seq<char> {
    whole_text(h / 100) + frac_text(h % 100)
}

/// The names joined by ", ".
pub open spec fn joined(names: Seq<String>) -> Seq<char>
    decreases names.len(),
{
    if names.len() == 0 {
        Seq::empty()
    } else if names.len() == 1 {
        (names[0])@
    } else {
        (names[0])@ + seq![',', ' '] + joined(names.drop_first())
    }
}

/// One line of the printed report: a multiplication sign, the multiplier,
/// a tab, then the group's names joined by commas.
pub open spec fn group_line(g: Group) -> Seq<char> {
    seq!['×'] + multiplier_text(g.hundredths as int) + seq!['\t'] + joined(g.names@)
}

/// Joining one more name appends a separator (unless the list was empty)
/// and the name.
proof fn lemma_joined_push(names: Seq<String>, x: String)
    ensures
        joined(names.push(x)) == if names.len() == 0 {
            x@
        } else {
            joined(names) + seq![',', ' '] + x@
        },
    decreases names.len(),
{
    let p = names.push(x);
    if names.len() == 0 {
        assert(p[0] == x);
    } else if names.len() == 1 {
        assert(p[0] == names[0]);
        assert(p.drop_first() =~= Seq::<String>::empty().push(x));
        assert(p.drop_first()[0] == x);
        assert(joined(p.drop_first()) == x@);
        assert(joined(names) == (names[0])@);
    } else {
        assert(p[0] == names[0]);
        assert(p.drop_first() =~= names.drop_first().push(x));
        lemma_joined_push(names.drop_first(), x);
        assert(joined(p) == (names[0])@ + seq![',', ' '] + (joined(names.drop_first()) + seq![
            ',',
            ' ',
        ] + x@));
        assert((names[0])@ + seq![',', ' '] + (joined(names.drop_first()) + seq![',', ' '] + x@)
            =~= ((names[0])@ + seq![',', ' '] + joined(names.drop_first())) + seq![',', ' '] + x@);
    }
}

/// Appends one decimal digit character to a string.
fn push_digit(s: &mut String, d: u16)
    requires
        d < 10,
    ensures
        final(s)@ == old(s)@ + seq![dec_digit(d as int)],
{
    if d == 0 {
        s.append("0");
        proof {
            reveal_strlit("0");
            assert(old(s)@ + "0"@ =~= old(s)@ + seq![dec_digit(0)]);
        }
    } else if d == 1 {
        s.append("1");
        proof {
            reveal_strlit("1");
            assert(old(s)@ + "1"@ =~= old(s)@ + seq![dec_digit(1)]);
        }
    } else if d == 2 {
        s.append("2");
        proof {
            reveal_strlit("2");
            assert(old(s)@ + "2"@ =~= old(s)@ + seq![dec_digit(2)]);
        }
    } else if d == 3 {
        s.append("3");
        proof {
            reveal_strlit("3");
            assert(old(s)@ + "3"@ =~= old(s)@ + seq![dec_digit(3)]);
        }
    } else if d == 4 {
        s.append("4");
        proof {
            reveal_strlit("4");
            assert(old(s)@ + "4"@ =~= old(s)@ + seq![dec_digit(4)]);
        }
    } else if d == 5 {
        s.append("5");
        proof {
            reveal_strlit("5");
            assert(old(s)@ + "5"@ =~= old(s)@ + seq![dec_digit(5)]);
        }
    } else if d == 6 {
        s.append("6");
        proof {
            reveal_strlit("6");
            assert(old(s)@ + "6"@ =~= old(s)@ + seq![dec_digit(6)]);
        }
    } else if d == 7 {
        s.append("7");
        proof {
            reveal_strlit("7");
            assert(old(s)@ + "7"@ =~= old(s)@ + seq![dec_digit(7)]);
        }
    } else if d == 8 {
        s.append("8");
        proof {
            reveal_strlit("8");
            assert(old(s)@ + "8"@ =~= old(s)@ + seq![dec_digit(8)]);
        }
    } else {
        s.append("9");
        proof {
            reveal_strlit("9");
            assert(old(s)@ + "9"@ =~= old(s)@ + seq![dec_digit(9)]);
        }
    }
}

/// Formats a multiplier given in hundredths, dropping trailing zeros.
pub fn format_multiplier(h: u16) -> (r: String)
    ensures
        r@ == multiplier_text(h as int),
{
    let w = h / 100;
    let f = h % 100;
    let mut r = String::new();
    if w >= 100 {
        push_digit(&mut r, w / 100);
        push_digit(&mut r, (w / 10) % 10);
        push_digit(&mut r, w % 10);
    } else if w >= 10 {
        push_digit(&mut r, w / 10);
        push_digit(&mut r, w % 10);
    } else {
        push_digit(&mut r, w);
    }
    proof {
        assert(r@ =~= whole_text(w as int));
    }
    if f == 0 {
    } else if f % 10 == 0 {
        r.append(".");
        push_digit(&mut r, f / 10);
        proof {
            reveal_strlit(".");
        }
    } else {
        r.append(".");
        push_digit(&mut r, f / 10);
        push_digit(&mut r, f % 10);
        proof {
            reveal_strlit(".");
        }
    }
    proof {
        assert(r@ =~= whole_text(w as int) + frac_text(f as int));
    }
    r
}

/// Formats one report group as a line.
pub fn format_group(g: &Group) -> (r: String)
    ensures
        r@ == group_line(*g),
{
    let mut r = String::new();
    r.append("×");
    let m = format_multiplier(g.hundredths);
    r.append(m.as_str());
    r.append("\t");
    proof {
        reveal_strlit("×");
        reveal_strlit("\t");
        assert("×"@ =~= seq!['×']);
        assert("\t"@ =~= seq!['\t']);
    }
    let ghost head = seq!['×'] + multiplier_text(g.hundredths as int) + seq!['\t'];
    proof {
        assert(r@ =~= head);
    }
    let mut i: usize = 0;
    while i < g.names.len()
        invariant
            i <= g.names@.len(),
            r@ == head + joined(g.names@.take(i as int)),
        decreases g.names@.len() - i,
    {
        if i > 0 {
            r.append(", ");
            proof {
                reveal_strlit(", ");
            }
        }
        let nm = &g.names[i];
        r.append(nm.as_str());
        proof {
            lemma_joined_push(g.names@.take(i as int), g.names@[i as int]);
            assert(g.names@.take(i as int).push(g.names@[i as int]) =~= g.names@.take(i + 1));
            if i == 0 {
                assert(r@ =~= head + joined(g.names@.take(i + 1)));
            } else {
                assert(", "@ =~= seq![',', ' ']);
                assert(r@ =~= head + joined(g.names@.take(i + 1)));
            }
        }
        i = i + 1;
    }
    proof {
        assert(g.names@.take(g.names@.len() as int) =~= g.names@);
        assert(r@ =~= group_line(*g));
    }
    r
}

impl TypeMatchup {
    /// The printed report: one line per group, highest multiplier first.
    /// The surrounding binary writes these lines to its output sink.
    pub fn render_lines(&mut self) -> (r: Vec<String>)
        requires
            old(self).wf(),
        ensures
            final(self).wf(),
            final(self)@ == old(self)@,
            final(self).spec_clean(),
            is_report(old(self)@, final(self).spec_report()),
            r@.len() == final(self).spec_report().len(),
            forall|g: int|
                0 <= g < r@.len() ==> ((#[trigger] r@[g])@ == group_line(
                    final(self).spec_report()[g],
                )),
            old(self).spec_clean() ==> *final(self) == *old(self),
    {
        let groups = self.get();
        proof {
            lemma_groups_match_report(old(self)@, groups@, self.spec_report());
        }
        let mut r: Vec<String> = Vec::new();
        let mut i: usize = 0;
        while i < groups.len()
            invariant
                i <= groups@.len(),
                r@.len() == i,
                groups_match(groups@, self.spec_report()),
                forall|g: int|
                    0 <= g < i ==> ((#[trigger] r@[g])@ == group_line(self.spec_report()[g])),
            decreases groups@.len() - i,
        {
            let line = format_group(&groups[i]);
            r.push(line);
            proof {
                assert(groups@[i as int].hundredths == self.spec_report()[i as int].hundredths);
                assert(groups@[i as int].names@ == self.spec_report()[i as int].names@);
                assert(group_line(groups@[i as int]) == group_line(self.spec_report()[i as int]));
            }
            i = i + 1;
        }
        r
    }
}

} // verus!
