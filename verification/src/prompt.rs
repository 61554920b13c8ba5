//! The yes/no question that destructive commands ask before they act.
use vstd::prelude::*;
use crate::lines::{trim, trim_chars};
use crate::text::{chars_of, lowered, str_eq, string_from_chars, to_lowercase};

verus! {

/// The hint shown after the question: the capital letter is what a bare
/// Enter means.
pub open spec fn spec_hint(default_yes: bool) -> Seq<char> {
    if default_yes {
        "[Y/n]"@
    } else {
        "[y/N]"@
    }
}

/// The hint for a question whose bare-Enter answer is `default_yes`.
pub fn hint(default_yes: bool) -> (r: &'static str)
    ensures
        r@ == spec_hint(default_yes),
{
    if default_yes {
        "[Y/n]"
    } else {
        "[y/N]"
    }
}

/// The line printed to ask `question`: the question, its hint, and a space.
pub fn question_line(question: &str, default_yes: bool) -> (r: String)
    ensures
        r@ == question@ + " "@ + spec_hint(default_yes) + " "@,
{
    let mut s = String::from_str(question);
    s.append(" ");
    s.append(hint(default_yes));
    s.append(" ");
    s
}

/// What an answer means: an answer that is empty once trimmed takes the
/// default; otherwise, lowercased, "y" and "yes" mean yes, and anything else
/// means no.
pub open spec fn spec_answer(input: Seq<char>, default_yes: bool) -> bool {
    let t = trim(input);
    if t.len() == 0 {
        default_yes
    } else {
        let a = lowered(t);
        a == "y"@ || a == "yes"@
    }
}

/// The default decides only a blank answer: any answer with something in
/// it means the same whatever the default, and it means yes exactly when it
/// lowercases to "y" or "yes".
pub proof fn lemma_default_only_for_blank(input: Seq<char>, default_yes: bool)
    ensures
        trim(input).len() == 0 ==> spec_answer(input, default_yes) == default_yes,
        trim(input).len() > 0 ==> spec_answer(input, true) == spec_answer(input, false),
        trim(input).len() > 0 ==> (spec_answer(input, default_yes) <==> (lowered(trim(input)) == "y"@
            || lowered(trim(input)) == "yes"@)),
{
}

/// Interpret the line typed in reply to a yes/no question.
pub fn answer_means_yes(input: &str, default_yes: bool) -> (r: bool)
    ensures
        r == spec_answer(input@, default_yes),
        trim(input@).len() == 0 ==> r == default_yes,
        trim(input@).len() > 0 ==> (r <==> (lowered(trim(input@)) == "y"@ || lowered(trim(input@)) == "yes"@)),
{
    let cs = chars_of(input);
    let t = trim_chars(cs.as_slice());
    if t.len() == 0 {
        return default_yes;
    }
    let trimmed = string_from_chars(t.as_slice());
    let answer = to_lowercase(trimmed.as_str());
    let a = answer.as_str();
    str_eq(a, "y") || str_eq(a, "yes")
}

} // verus!
