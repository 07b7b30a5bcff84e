//! Answers typed at the plotter's questions.

use vstd::prelude::*;

verus! {

/// A character with the Unicode White_Space property, which is what
/// `char::is_whitespace` and `str::trim` go by.
pub open spec fn is_white_space(c: char) -> bool {
    ||| '\u{9}' <= c && c <= '\u{d}'
    ||| c == ' '
    ||| c == '\u{85}'
    ||| c == '\u{a0}'
    ||| c == '\u{1680}'
    ||| '\u{2000}' <= c && c <= '\u{200a}'
    ||| c == '\u{2028}'
    ||| c == '\u{2029}'
    ||| c == '\u{202f}'
    ||| c == '\u{205f}'
    ||| c == '\u{3000}'
}

/// The string without its leading white space.
pub open spec fn trim_start(s: Seq<char>) -> Seq<char>
    decreases s.len(),
{
    if s.len() > 0 && is_white_space(s[0]) {
        trim_start(s.drop_first())
    } else {
        s
    }
}

/// The string without its trailing white space.
pub open spec fn trim_end(s: Seq<char>) -> Seq<char>
    decreases s.len(),
{
    if s.len() > 0 && is_white_space(s.last()) {
        trim_end(s.drop_last())
    } else {
        s
    }
}

/// The string without its leading and trailing white space.
pub open spec fn trimmed(s: Seq<char>) -> Seq<char> {
    trim_end(trim_start(s))
}

/// Calls `str::trim`. Trusted: as its documentation says, the result is `s`
/// without leading and trailing characters of the Unicode White_Space property.
#[verifier::external_body]
fn trim(s: &str) -> (t: &str)
    ensures
        t@ == trimmed(s@),
{
    s.trim()
}

/// A string of white space trims to nothing.
pub proof fn lemma_blank_trims_to_empty(s: Seq<char>)
    requires
        forall|i: int| 0 <= i < s.len() ==> is_white_space(#[trigger] s[i]),
    ensures
        trimmed(s).len() == 0,
    decreases s.len(),
{
    if s.len() > 0 {
        assert forall|i: int| 0 <= i < s.drop_first().len() implies is_white_space(
            #[trigger] s.drop_first()[i],
        ) by {
            assert(s.drop_first()[i] == s[i + 1]);
        }
        lemma_blank_trims_to_empty(s.drop_first());
        assert(trim_start(s) == trim_start(s.drop_first()));
    }
}

/// The answer a typed line gives: the line without surrounding white space,
/// or `default` when nothing else is left.
pub fn answer_or_default(line: &str, default: &str) -> (answer: String)
    ensures
        answer@ == if trimmed(line@).len() == 0 {
            default@
        } else {
            trimmed(line@)
        },
        (forall|i: int| 0 <= i < line@.len() ==> is_white_space(#[trigger] line@[i])) ==> answer@
            == default@,
{
    let t = trim(line);
    let chosen = if t.unicode_len() == 0 {
        default
    } else {
        t
    };
    let answer = chosen.to_string();
    proof {
        vstd::string::to_string_from_display_ensures_for_str(chosen, answer);
        if forall|i: int| 0 <= i < line@.len() ==> is_white_space(#[trigger] line@[i]) {
            lemma_blank_trims_to_empty(line@);
        }
    }
    answer
}

} // verus!
