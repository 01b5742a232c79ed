//! What the screens show and what their controls ask for.

use vstd::prelude::*;
use crate::session::PlayMode;

verus! {

/// `expression` in the notation of the course handout, where `+` denotes
/// union: every `|` becomes `+`.
pub open spec fn handout_notation(expression: Seq<char>) -> Seq<char> {
    Seq::new(expression.len(), |i: int| if expression[i] == '|' { '+' } else { expression[i] })
}

/// Writes a regular expression with `+` for union, as the course handout
/// does.
pub fn display_regex(expression: &str) -> (r: String)
    ensures
        r@ == handout_notation(expression@),
{
    let n = expression.unicode_len();
    let mut out = String::new();
    let mut i: usize = 0;
    while i < n
        invariant
            i <= n,
            n == expression@.len(),
            out@ == handout_notation(expression@).take(i as int),
        decreases n - i,
    {
        let c = expression.get_char(i);
        if c == '|' {
            out.push('+');
        } else {
            out.push(c);
        }
        assert(handout_notation(expression@).take(i + 1) =~= handout_notation(expression@).take(
            i as int,
        ).push(if c == '|' { '+' } else { c }));
        i = i + 1;
    }
    assert(handout_notation(expression@).take(n as int) =~= handout_notation(expression@));
    out
}

/// What the grammar editor asks for.
#[derive(Debug, Clone, Copy, PartialEq, Eq)]
pub enum EditorAction {
    Idle,
    Generate,
    PlayMaze,
}

/// What the maze's heads-up display asks for.
pub enum HudAction {
    Idle,
    BackToLab,
    PlayAgain,
}

/// What the laboratory screen asks for.
#[derive(Debug, Clone, Copy, PartialEq, Eq)]
pub enum LaboratoryAction {
    Idle,
    Generate,
    PlayFree,
    PlayEnigma,
}

/// What the main menu asks for.
#[derive(Debug, Clone, Copy, PartialEq, Eq)]
pub enum MainMenuAction {
    Idle,
    OpenModeChoice,
    SelectMode(PlayMode),
    OpenOptions,
    Quit,
    Back,
}

/// What the options screen asks for.
#[derive(Debug, Clone, Copy, PartialEq, Eq)]
pub enum OptionsAction {
    Idle,
    Back,
}

} // verus!
