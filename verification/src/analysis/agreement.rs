//! Where a method file and the analysis of its coefficients disagree, and
//! what a step of the method costs.
//!
//! Nothing reads the claimed properties of a method file except to compare
//! against them: order, stage order and stability are derived, so a typo in
//! a tableau shows up as a disagreement rather than as a method that quietly
//! integrates at the wrong order.

use vstd::prelude::*;
use crate::text::{decimal_string, decimal_text};

verus! {

/// What a method file claims about its method.
#[derive(Copy, Clone, Debug, PartialEq, Eq, Structural)]
pub struct Claims {
    pub order: Option<u32>,
    pub embedded_order: Option<u32>,
    pub a_stable: Option<bool>,
    pub l_stable: Option<bool>,
    pub stiffly_accurate: Option<bool>,
    pub stage_order: Option<u32>,
}

/// What the analysis of a Runge-Kutta tableau found.
#[derive(Copy, Clone, Debug, PartialEq, Eq, Structural)]
pub struct RkFindings {
    /// The order the order conditions are satisfied to.
    pub order: usize,
    /// The same for the embedded weights, where there are any.
    pub embedded_order: Option<usize>,
    pub a_stable: bool,
    pub l_stable: bool,
    pub stiffly_accurate: bool,
    pub stage_order: usize,
    /// Whether `c` is the row sum of `A`.
    pub consistent_abscissae: bool,
}

/// `true` or `false`, as Rust writes a `bool`.
pub open spec fn bool_text(b: bool) -> Seq<char> {
    if b {
        "true"@
    } else {
        "false"@
    }
}

/// The note on a claimed property `name` that the analysis contradicts.
pub open spec fn flag_note(name: Seq<char>, claimed: Option<bool>, computed: bool) -> Seq<Seq<char>> {
    match claimed {
        Some(c) => if c != computed {
            seq!["file claims "@ + name + " = "@ + bool_text(c) + ", computed "@ + bool_text(computed)]
        } else {
            Seq::empty()
        },
        None => Seq::empty(),
    }
}

/// The note on a declared order that the coefficients (`what`) contradict.
pub open spec fn order_note(declared: Option<u32>, what: Seq<char>, computed: nat) -> Seq<
    Seq<char>,
> {
    match declared {
        Some(d) => if d != computed {
            seq![
                "file claims order "@ + decimal_text(d as nat) + ", the "@ + what
                    + " order "@ + decimal_text(computed),
            ]
        } else {
            Seq::empty()
        },
        None => Seq::empty(),
    }
}

/// The note on a declared embedded order the tableau contradicts.
pub open spec fn embedded_note(declared: Option<u32>, computed: Option<usize>) -> Seq<Seq<char>> {
    match (declared, computed) {
        (Some(d), Some(e)) => if d != e {
            seq![
                "file claims embedded order "@ + decimal_text(d as nat)
                    + ", the tableau satisfies "@ + decimal_text(e as nat),
            ]
        } else {
            Seq::empty()
        },
        _ => Seq::empty(),
    }
}

/// The note on a claimed stage order the tableau contradicts.
pub open spec fn stage_order_note(claimed: Option<u32>, computed: usize) -> Seq<Seq<char>> {
    match claimed {
        Some(d) => if d != computed {
            seq![
                "file claims stage order "@ + decimal_text(d as nat) + ", computed "@
                    + decimal_text(computed as nat),
            ]
        } else {
            Seq::empty()
        },
        None => Seq::empty(),
    }
}

/// Every disagreement between the claims of a file and the analysis of its
/// Runge-Kutta tableau, in this order.
pub open spec fn rk_notes(c: Claims, f: RkFindings) -> Seq<Seq<char>> {
    order_note(c.order, "tableau satisfies"@, f.order as nat) + embedded_note(
        c.embedded_order,
        f.embedded_order,
    ) + flag_note("a_stable"@, c.a_stable, f.a_stable) + flag_note(
        "l_stable"@,
        c.l_stable,
        f.l_stable,
    ) + flag_note("stiffly_accurate"@, c.stiffly_accurate, f.stiffly_accurate)
        + stage_order_note(c.stage_order, f.stage_order) + if f.consistent_abscissae {
        Seq::empty()
    } else {
        seq!["c is not the row sum of A"@]
    }
}

/// Every disagreement between the claims of a file and the analysis of its
/// multistep family: `failure` is why its coefficients could not be
/// determined, if they could not, in which case the family counts as order
/// zero.
pub open spec fn lmm_notes(c: Claims, failure: Option<Seq<char>>, order: nat, a_stable: bool) -> Seq<
    Seq<char>,
> {
    let computed: nat = if failure is Some {
        0
    } else {
        order
    };
    (match failure {
        Some(e) => seq!["coefficients could not be determined: "@ + e],
        None => Seq::empty(),
    }) + order_note(c.order, "coefficients give"@, computed) + flag_note(
        "a_stable"@,
        c.a_stable,
        a_stable,
    )
}

/// The texts of a list of strings.
pub open spec fn texts(v: Seq<String>) -> Seq<Seq<char>> {
    v.map_values(|s: String| s@)
}

fn bool_str(b: bool) -> (s: &'static str)
    ensures
        s@ == bool_text(b),
{
    if b {
        "true"
    } else {
        "false"
    }
}

proof fn lemma_texts_push(v: Seq<String>, s: String)
    ensures
        texts(v.push(s)) == texts(v) + seq![s@],
{
    assert(texts(v.push(s)) =~= texts(v) + seq![s@]);
}

fn note_flag(notes: &mut Vec<String>, name: &str, claimed: Option<bool>, computed: bool)
    ensures
        texts(final(notes)@) == texts(old(notes)@) + flag_note(name@, claimed, computed),
{
    if let Some(c) = claimed {
        if c != computed {
            let mut m = String::from_str("file claims ");
            m.append(name);
            m.append(" = ");
            m.append(bool_str(c));
            m.append(", computed ");
            m.append(bool_str(computed));
            proof {
                lemma_texts_push(notes@, m);
            }
            notes.push(m);
            return;
        }
    }
    assert(texts(notes@) =~= texts(notes@) + flag_note(name@, claimed, computed));
}

fn note_order(notes: &mut Vec<String>, declared: Option<u32>, what: &str, computed: usize)
    ensures
        texts(final(notes)@) == texts(old(notes)@) + order_note(declared, what@, computed as nat),
{
    if let Some(d) = declared {
        if d as usize != computed {
            let mut m = String::from_str("file claims order ");
            m.append(decimal_string(d as u64).as_str());
            m.append(", the ");
            m.append(what);
            m.append(" order ");
            m.append(decimal_string(computed as u64).as_str());
            proof {
                lemma_texts_push(notes@, m);
            }
            notes.push(m);
            return;
        }
    }
    assert(texts(notes@) =~= texts(notes@) + order_note(declared, what@, computed as nat));
}

/// Where a file's claims and the analysis of its Runge-Kutta tableau
/// disagree, one note per disagreement.
pub fn rk_discrepancies(claims: &Claims, found: &RkFindings) -> (notes: Vec<String>)
    ensures
        texts(notes@) == rk_notes(*claims, *found),
{
    let mut notes: Vec<String> = Vec::new();
    assert(texts(notes@) =~= Seq::empty());
    note_order(&mut notes, claims.order, "tableau satisfies", found.order);
    let ghost after_order = texts(notes@);
    match (claims.embedded_order, found.embedded_order) {
        (Some(d), Some(e)) => {
            if d as usize != e {
                let mut m = String::from_str("file claims embedded order ");
                m.append(decimal_string(d as u64).as_str());
                m.append(", the tableau satisfies ");
                m.append(decimal_string(e as u64).as_str());
                proof {
                    lemma_texts_push(notes@, m);
                }
                notes.push(m);
            }
        },
        _ => {},
    }
    assert(texts(notes@) =~= after_order + embedded_note(claims.embedded_order, found.embedded_order));
    note_flag(&mut notes, "a_stable", claims.a_stable, found.a_stable);
    note_flag(&mut notes, "l_stable", claims.l_stable, found.l_stable);
    note_flag(&mut notes, "stiffly_accurate", claims.stiffly_accurate, found.stiffly_accurate);
    let ghost before_stage = texts(notes@);
    if let Some(d) = claims.stage_order {
        if d as usize != found.stage_order {
            let mut m = String::from_str("file claims stage order ");
            m.append(decimal_string(d as u64).as_str());
            m.append(", computed ");
            m.append(decimal_string(found.stage_order as u64).as_str());
            proof {
                lemma_texts_push(notes@, m);
            }
            notes.push(m);
        }
    }
    assert(texts(notes@) =~= before_stage + stage_order_note(claims.stage_order, found.stage_order));
    let ghost before_abscissae = texts(notes@);
    if !found.consistent_abscissae {
        let m = String::from_str("c is not the row sum of A");
        proof {
            lemma_texts_push(notes@, m);
        }
        notes.push(m);
    }
    assert(texts(notes@) =~= before_abscissae + if found.consistent_abscissae {
        Seq::<Seq<char>>::empty()
    } else {
        seq!["c is not the row sum of A"@]
    });
    notes
}

/// Where a file's claims and the analysis of its multistep family disagree,
/// one note per disagreement: `failure` is why the coefficients could not be
/// determined, if they could not, `order` the order they give otherwise.
pub fn lmm_discrepancies(claims: &Claims, failure: Option<&str>, order: usize, a_stable: bool) -> (notes:
    Vec<String>)
    ensures
        texts(notes@) == lmm_notes(
            *claims,
            match failure {
                Some(e) => Some(e@),
                None => None,
            },
            order as nat,
            a_stable,
        ),
{
    let mut notes: Vec<String> = Vec::new();
    let computed = match failure {
        Some(e) => {
            let mut m = String::from_str("coefficients could not be determined: ");
            m.append(e);
            proof {
                lemma_texts_push(notes@, m);
            }
            notes.push(m);
            0
        },
        None => order,
    };
    assert(texts(notes@) =~= match failure {
        Some(e) => seq!["coefficients could not be determined: "@ + e@],
        None => Seq::<Seq<char>>::empty(),
    });
    note_order(&mut notes, claims.order, "coefficients give", computed);
    note_flag(&mut notes, "a_stable", claims.a_stable, a_stable);
    notes
}

/// The cost of one step of a Runge-Kutta method in right hand side
/// evaluations: one per stage, but one fewer for a method whose last stage is
/// the first of the next step (FSAL), since that evaluation is saved every
/// step. Without FSAL a step never costs fewer evaluations than it has
/// explicit stages.
pub open spec fn stage_cost_spec(stages: nat, fsal: bool, explicit_stages: nat) -> nat {
    if fsal {
        (stages - 1) as nat
    } else if stages >= explicit_stages {
        stages
    } else {
        explicit_stages
    }
}

/// The cost of one step of a Runge-Kutta method with `stages` stages, of
/// which `explicit_stages` have a zero diagonal entry.
pub fn stage_cost(stages: usize, fsal: bool, explicit_stages: usize) -> (cost: usize)
    requires
        fsal ==> stages >= 1,
    ensures
        cost == stage_cost_spec(stages as nat, fsal, explicit_stages as nat),
{
    if fsal {
        stages - 1
    } else if stages >= explicit_stages {
        stages
    } else {
        explicit_stages
    }
}

} // verus!
