//! The doors of a maze room: one per alternative of the non-terminal on top
//! of the stack, or the exit once the stack is empty.

use vstd::prelude::*;

use crate::derivation::{DerivationState, top_non_terminal};
use crate::grammar::{Grammar, alternatives_of};
use crate::symbol::{Symbol, SymbolModel, symbol_text, string_from};

verus! {

/// Every door a player can walk into is one of these.
#[derive(Debug, Clone, Copy, PartialEq, Eq, Structural)]
pub enum DoorKind {
    /// Applies its alternative as the production choice.
    Production,
    /// The stack is already empty: walking here is the way out.
    Exit,
}

/// A door of a room, before it is placed: the alternative it applies, its
/// label and its kind.
#[derive(Debug, Clone, PartialEq)]
pub struct DoorPlan {
    pub choice_index: usize,
    pub label: String,
    pub kind: DoorKind,
}

pub struct DoorModel {
    pub choice_index: usize,
    pub label: Seq<char>,
    pub kind: DoorKind,
}

impl DeepView for DoorPlan {
    type V = DoorModel;

    open spec fn deep_view(&self) -> DoorModel {
        DoorModel { choice_index: self.choice_index, label: self.label@, kind: self.kind }
    }
}

/// The symbols of an alternative one after the other.
pub open spec fn symbols_written(alt: Seq<SymbolModel>) -> Seq<char>
    decreases alt.len(),
{
    if alt.len() == 0 {
        Seq::empty()
    } else {
        symbols_written(alt.drop_last()) + symbol_text(alt.last())
    }
}

/// `nt → production`, with `ε` for the empty word.
pub open spec fn door_label(nt: Seq<char>, alt: Seq<SymbolModel>) -> Seq<char> {
    nt + " → "@ + if alt.len() == 0 {
        "ε"@
    } else {
        symbols_written(alt)
    }
}

pub open spec fn exit_label() -> Seq<char> {
    "★ SAÍDA DO LABIRINTO (VITÓRIA) ★"@
}

/// The doors of the room for the derivation `st` of `g`, and the
/// non-terminal they expand: one door per alternative of the non-terminal
/// on top, in order; no door when it has no rule; the exit alone when no
/// non-terminal is on top.
pub open spec fn planned_doors(
    g: crate::grammar::GrammarModel,
    st: crate::derivation::StateModel,
) -> (Option<Seq<char>>, Seq<DoorModel>) {
    match top_non_terminal(st) {
        Some(nt) => (
            Some(nt),
            match alternatives_of(g, nt) {
                Some(alts) => Seq::new(
                    alts.len(),
                    |i: int|
                        DoorModel {
                            choice_index: i as usize,
                            label: door_label(nt, alts[i]),
                            kind: DoorKind::Production,
                        },
                ),
                None => Seq::empty(),
            },
        ),
        None => (
            None,
            seq![DoorModel { choice_index: 0, label: exit_label(), kind: DoorKind::Exit }],
        ),
    }
}

/// Each production door applies the alternative it is labelled with: in
/// the room of the non-terminal `nt` on top, there is one door per
/// alternative of `nt`, the k-th door applies the k-th alternative and
/// bears its label; with no non-terminal on top, the exit is the one door.
pub proof fn lemma_doors_apply_their_alternatives(
    g: crate::grammar::GrammarModel,
    st: crate::derivation::StateModel,
)
    requires
        forall|nt: Seq<char>|
            (#[trigger] alternatives_of(g, nt)) is Some ==> alternatives_of(g, nt)->0.len()
                <= usize::MAX,
    ensures
        match top_non_terminal(st) {
            Some(nt) => {
                &&& planned_doors(g, st).0 == Some(nt)
                &&& match alternatives_of(g, nt) {
                    Some(alts) => {
                        &&& planned_doors(g, st).1.len() == alts.len()
                        &&& forall|k: int|
                            0 <= k < alts.len() ==> {
                                &&& (#[trigger] planned_doors(g, st).1[k]).choice_index == k
                                &&& planned_doors(g, st).1[k].kind == DoorKind::Production
                                &&& planned_doors(g, st).1[k].label == door_label(
                                    nt,
                                    alts[planned_doors(g, st).1[k].choice_index as int],
                                )
                            }
                    },
                    None => planned_doors(g, st).1.len() == 0,
                }
            },
            None => {
                &&& planned_doors(g, st).0 is None
                &&& planned_doors(g, st).1.len() == 1
                &&& planned_doors(g, st).1[0].kind == DoorKind::Exit
                &&& planned_doors(g, st).1[0].label == exit_label()
            },
        },
{
}

/// The symbols of `alt` written one after the other.
fn write_symbols(alt: &Vec<Symbol>) -> (r: String)
    ensures
        r@ == symbols_written(alt.deep_view()),
{
    let ghost a = alt.deep_view();
    let mut out = String::new();
    let n = alt.len();
    let mut i: usize = 0;
    assert(a.take(0) =~= Seq::<SymbolModel>::empty());
    while i < n
        invariant
            i <= n,
            n == alt@.len(),
            a == alt.deep_view(),
            out@ == symbols_written(a.take(i as int)),
        decreases n - i,
    {
        assert(a.take(i + 1).drop_last() =~= a.take(i as int));
        assert(a[i as int] == alt@[i as int].deep_view());
        let piece = alt[i].to_string();
        out.append(piece.as_str());
        i = i + 1;
    }
    assert(a.take(n as int) =~= a);
    out
}

/// The doors of the room for `state`: the non-terminal on top and one
/// door per alternative, or the exit when the stack holds no non-terminal
/// on top.
pub fn plan_doors(grammar: &Grammar, state: &DerivationState) -> (r: (Option<String>, Vec<DoorPlan>))
    ensures
        (match r.0 {
            Some(n) => Some(n@),
            None => None,
        }) == planned_doors(grammar.deep_view(), state.deep_view()).0,
        r.1.deep_view() == planned_doors(grammar.deep_view(), state.deep_view()).1,
        match top_non_terminal(state.deep_view()) {
            Some(nt) => {
                &&& r.0 matches Some(n) && n@ == nt
                &&& match alternatives_of(grammar.deep_view(), nt) {
                    Some(alts) => {
                        &&& r.1@.len() == alts.len()
                        &&& forall|k: int|
                            0 <= k < r.1@.len() ==> {
                                &&& (#[trigger] r.1@[k]).choice_index == k
                                &&& r.1@[k].kind == DoorKind::Production
                                &&& r.1@[k].label@ == door_label(
                                    nt,
                                    alts[r.1@[k].choice_index as int],
                                )
                            }
                    },
                    None => r.1@.len() == 0,
                }
            },
            None => {
                &&& r.0 is None
                &&& r.1@.len() == 1
                &&& r.1@[0].kind == DoorKind::Exit
                &&& r.1@[0].label@ == exit_label()
            },
        },
{
    match state.current_non_terminal() {
        Some(nt) => {
            let mut doors: Vec<DoorPlan> = Vec::new();
            match grammar.alternatives_of_name(&nt) {
                Some(alts) => {
                    let ghost am = alts.deep_view();
                    let ghost target = planned_doors(grammar.deep_view(), state.deep_view()).1;
                    let n = alts.len();
                    let mut i: usize = 0;
                    while i < n
                        invariant
                            i <= n,
                            n == alts@.len(),
                            am == alts.deep_view(),
                            target.len() == n,
                            forall|j: int|
                                0 <= j < n ==> #[trigger] target[j] == (DoorModel {
                                    choice_index: j as usize,
                                    label: door_label(nt@, am[j]),
                                    kind: DoorKind::Production,
                                }),
                            doors.deep_view() == target.take(i as int),
                        decreases n - i,
                    {
                        assert(am[i as int] == alts@[i as int].deep_view());
                        let mut label = nt.clone();
                        label.append(" → ");
                        if alts[i].len() == 0 {
                            label.append("ε");
                        } else {
                            let written = write_symbols(&alts[i]);
                            label.append(written.as_str());
                        }
                        let door = DoorPlan { choice_index: i, label, kind: DoorKind::Production };
                        let ghost before = doors.deep_view();
                        doors.push(door);
                        assert(doors.deep_view() =~= before.push(target[i as int]));
                        assert(target.take(i + 1) =~= target.take(i as int).push(target[i as int]));
                        i = i + 1;
                    }
                    assert(target.take(n as int) =~= target);
                    assert forall|k: int| 0 <= k < doors@.len() implies {
                        &&& (#[trigger] doors@[k]).choice_index == k
                        &&& doors@[k].kind == DoorKind::Production
                        &&& doors@[k].label@ == door_label(nt@, am[doors@[k].choice_index as int])
                    } by {
                        assert(doors.deep_view()[k] == doors@[k].deep_view());
                        assert(target[k] == doors.deep_view()[k]);
                    }
                },
                None => {
                    assert(doors.deep_view() =~= Seq::<DoorModel>::empty());
                },
            }
            (Some(nt), doors)
        },
        None => {
            let door = DoorPlan {
                choice_index: 0,
                label: string_from("★ SAÍDA DO LABIRINTO (VITÓRIA) ★"),
                kind: DoorKind::Exit,
            };
            let doors = vec![door];
            assert(doors.deep_view() =~= seq![
                DoorModel { choice_index: 0, label: exit_label(), kind: DoorKind::Exit },
            ]);
            assert(doors.deep_view()[0] == doors@[0].deep_view());
            (None, doors)
        },
    }
}

} // verus!
