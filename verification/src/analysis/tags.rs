//! Tags derived from what a method actually is.
//!
//! The library is browsed by property, not by name, so the properties have to
//! be first class and they have to be derived. A tag here is never a label
//! somebody typed into a file; it follows from what the analysis found, which
//! means a filter on "L-stable" returns exactly the methods that are.

use vstd::prelude::*;
use crate::method::Reference;
use crate::method::rk::Structure;

verus! {

/// A tag with the group it belongs to, so the interface can offer them in
/// coherent sets rather than as one flat list.
#[derive(Clone, Debug)]
pub struct Tag {
    pub group: &'static str,
    pub name: String,
}

/// How a step of the method is computed, as far as tags tell it.
#[derive(Copy, Clone, Debug, PartialEq, Eq, Structural)]
pub enum StructureFacts {
    /// An additive pair, described by its implicit half.
    Additive { singly_diagonal: bool, explicit_first_stage: bool, stiffly_accurate: bool },
    RungeKutta {
        structure: Structure,
        singly_diagonal: bool,
        explicit_first_stage: bool,
        fsal: bool,
        stiffly_accurate: bool,
        embedded: bool,
    },
    LinearMultistep { implicit: bool, needs_starter: bool },
    Rosenbrock { singly_diagonal: bool, stiffly_accurate: bool, embedded: bool },
}

/// Where the half angle of a method's A(alpha) wedge lies.
#[derive(Copy, Clone, Debug, PartialEq, Eq, Structural)]
pub enum Wedge {
    /// No wedge was found.
    Unknown,
    /// Below one degree.
    Narrow,
    /// From one degree up to, but not including, forty five.
    Moderate,
    /// Forty five degrees or more.
    Wide,
}

/// Everything about a method its tags are derived from.
#[derive(Clone, Debug)]
pub struct MethodFacts {
    pub structure: StructureFacts,
    pub l_stable: bool,
    pub a_stable: bool,
    pub wedge: Wedge,
    pub algebraically_stable: Option<bool>,
    /// The SSP coefficient is unbounded or at least `1e-6`.
    pub strong_stability_preserving: bool,
    pub dissipation_order: Option<usize>,
    pub dispersion_order: Option<usize>,
    pub symplectic: Option<bool>,
    pub symmetric: Option<bool>,
    pub computed_order: usize,
    pub adaptive: bool,
    pub exact_arithmetic: bool,
    pub references: Vec<Reference>,
    /// The free form tags the method file adds.
    pub extra: Vec<String>,
}

/// A tag as two texts, its group and its name.
pub open spec fn tag_view(t: Tag) -> (Seq<char>, Seq<char>) {
    (t.group@, t.name@)
}

/// The tags of a list, as texts.
pub open spec fn tags_view(s: Seq<Tag>) -> Seq<(Seq<char>, Seq<char>)> {
    s.map_values(|t: Tag| tag_view(t))
}

/// One tag, or none.
pub open spec fn when(c: bool, group: &str, name: &str) -> Seq<(Seq<char>, Seq<char>)> {
    if c {
        seq![(group@, name@)]
    } else {
        Seq::empty()
    }
}

/// The first of two tags, or else the second.
pub open spec fn either(c: bool, group: &str, yes: &str, no: &str) -> Seq<(Seq<char>, Seq<char>)> {
    if c {
        seq![(group@, yes@)]
    } else {
        seq![(group@, no@)]
    }
}

/// The tags that say how a step is computed.
pub open spec fn structure_tags(s: StructureFacts) -> Seq<(Seq<char>, Seq<char>)> {
    match s {
        StructureFacts::Additive { singly_diagonal, explicit_first_stage, stiffly_accurate } => {
            seq![("structure"@, "additive"@)] + when(singly_diagonal, "structure", "singly diagonal")
                + when(explicit_first_stage, "structure", "explicit first stage") + when(
                stiffly_accurate,
                "structure",
                "stiffly accurate",
            )
        },
        StructureFacts::RungeKutta {
            structure,
            singly_diagonal,
            explicit_first_stage,
            fsal,
            stiffly_accurate,
            embedded,
        } => {
            let kind = if structure == Structure::Explicit {
                "explicit"@
            } else if singly_diagonal {
                "singly diagonal"@
            } else if structure == Structure::DiagonallyImplicit {
                "diagonally implicit"@
            } else {
                "fully implicit"@
            };
            seq![("structure"@, kind)] + when(
                explicit_first_stage,
                "structure",
                "explicit first stage",
            ) + when(fsal, "structure", "FSAL") + when(stiffly_accurate, "structure", "stiffly accurate")
                + either(embedded, "control", "embedded pair", "step doubling")
        },
        StructureFacts::LinearMultistep { implicit, needs_starter } => {
            seq![("structure"@, "multistep"@)] + either(implicit, "structure", "implicit", "explicit")
                + either(needs_starter, "structure", "needs a starter", "self starting") + seq![
                ("control"@, "order reduced estimate"@),
            ]
        },
        StructureFacts::Rosenbrock { singly_diagonal, stiffly_accurate, embedded } => {
            seq![("structure"@, "linearly implicit"@)] + when(
                singly_diagonal,
                "structure",
                "singly diagonal",
            ) + when(stiffly_accurate, "structure", "stiffly accurate") + seq![
                ("structure"@, "needs a Jacobian"@),
            ] + either(embedded, "control", "embedded pair", "step doubling")
        },
    }
}

/// The tags that say whether a method can be used on a problem at all.
pub open spec fn stability_tags(f: MethodFacts) -> Seq<(Seq<char>, Seq<char>)> {
    let linear = if f.l_stable {
        "L-stable"@
    } else if f.a_stable {
        "A-stable"@
    } else if f.wedge == Wedge::Moderate || f.wedge == Wedge::Wide {
        "A(alpha)-stable"@
    } else {
        "conditionally stable"@
    };
    seq![("stability"@, linear)] + either(
        f.a_stable || f.wedge == Wedge::Wide,
        "use",
        "stiff problems",
        "non stiff problems",
    ) + further_tags(f)
}

/// The order band a method falls in.
pub open spec fn order_band(order: usize) -> Seq<char> {
    if order <= 2 {
        "order 1 to 2"@
    } else if order <= 4 {
        "order 3 to 4"@
    } else if order <= 6 {
        "order 5 to 6"@
    } else {
        "order 7 and above"@
    }
}

/// The order tag names the band the computed order lies in: orders up to 2
/// read "order 1 to 2", 3 and 4 "order 3 to 4", 5 and 6 "order 5 to 6", and
/// every higher one "order 7 and above"; the four texts are different, so
/// each order has exactly one of them.
pub proof fn law_order_band_contains_order(order: usize)
    ensures
        order_band(order) == "order 1 to 2"@ <==> order <= 2,
        order_band(order) == "order 3 to 4"@ <==> 3 <= order <= 4,
        order_band(order) == "order 5 to 6"@ <==> 5 <= order <= 6,
        order_band(order) == "order 7 and above"@ <==> 7 <= order,
{
    reveal_strlit("order 1 to 2");
    reveal_strlit("order 3 to 4");
    reveal_strlit("order 5 to 6");
    reveal_strlit("order 7 and above");
    assert("order 1 to 2"@[6] != "order 3 to 4"@[6]);
    assert("order 1 to 2"@[6] != "order 5 to 6"@[6]);
    assert("order 1 to 2"@[6] != "order 7 and above"@[6]);
    assert("order 3 to 4"@[6] != "order 5 to 6"@[6]);
    assert("order 3 to 4"@[6] != "order 7 and above"@[6]);
    assert("order 5 to 6"@[6] != "order 7 and above"@[6]);
}

/// Whether any of the references carries a DOI.
pub open spec fn has_doi(refs: Seq<Reference>) -> bool {
    exists|i: int| 0 <= i < refs.len() && (#[trigger] refs[i]).doi is Some
}

/// The extra tags a file adds, in the group `other`.
pub open spec fn extra_tags(extra: Seq<String>) -> Seq<(Seq<char>, Seq<char>)> {
    extra.map_values(|e: String| ("other"@, e@))
}

/// Every tag that applies to a method, in the order they are listed.
pub open spec fn method_tags(f: MethodFacts) -> Seq<(Seq<char>, Seq<char>)> {
    structure_tags(f.structure) + stability_tags(f) + seq![("order"@, order_band(f.computed_order))]
        + either(f.adaptive, "control", "adaptive", "fixed step") + when(
        f.exact_arithmetic,
        "provenance",
        "exact coefficients",
    ) + when(has_doi(f.references@), "provenance", "published source") + extra_tags(f.extra@)
}

/// A tag in a group.
fn tag(group: &'static str, name: &str) -> (t: Tag)
    ensures
        t.group@ == group@,
        t.name@ == name@,
{
    Tag { group, name: String::from_str(name) }
}

/// Add one tag.
fn push_tag(tags: &mut Vec<Tag>, group: &'static str, name: &str)
    ensures
        tags_view(final(tags)@) == tags_view(old(tags)@) + seq![(group@, name@)],
{
    tags.push(tag(group, name));
    assert(tags_view(tags@) =~= tags_view(old(tags)@) + seq![(group@, name@)]);
}

/// Add one tag if the condition holds.
fn push_tag_when(tags: &mut Vec<Tag>, c: bool, group: &'static str, name: &str)
    ensures
        tags_view(final(tags)@) == tags_view(old(tags)@) + when(c, group, name),
{
    if c {
        push_tag(tags, group, name);
    } else {
        assert(tags_view(tags@) =~= tags_view(tags@) + when(c, group, name));
    }
}

/// Add the first of two tags if the condition holds, the second otherwise.
fn push_tag_either(tags: &mut Vec<Tag>, c: bool, group: &'static str, yes: &str, no: &str)
    ensures
        tags_view(final(tags)@) == tags_view(old(tags)@) + either(c, group, yes, no),
{
    if c {
        push_tag(tags, group, yes);
    } else {
        push_tag(tags, group, no);
    }
}

fn push_structure_tags(tags: &mut Vec<Tag>, s: StructureFacts)
    ensures
        tags_view(final(tags)@) == tags_view(old(tags)@) + structure_tags(s),
{
    match s {
        StructureFacts::Additive { singly_diagonal, explicit_first_stage, stiffly_accurate } => {
            push_additive_tags(tags, singly_diagonal, explicit_first_stage, stiffly_accurate);
        },
        StructureFacts::RungeKutta {
            structure,
            singly_diagonal,
            explicit_first_stage,
            fsal,
            stiffly_accurate,
            embedded,
        } => {
            push_runge_kutta_tags(
                tags,
                structure,
                singly_diagonal,
                explicit_first_stage,
                fsal,
                stiffly_accurate,
                embedded,
            );
        },
        StructureFacts::LinearMultistep { implicit, needs_starter } => {
            push_multistep_tags(tags, implicit, needs_starter);
        },
        StructureFacts::Rosenbrock { singly_diagonal, stiffly_accurate, embedded } => {
            push_rosenbrock_tags(tags, singly_diagonal, stiffly_accurate, embedded);
        },
    }
}

fn push_additive_tags(
    tags: &mut Vec<Tag>,
    singly_diagonal: bool,
    explicit_first_stage: bool,
    stiffly_accurate: bool,
)
    ensures
        tags_view(final(tags)@) == tags_view(old(tags)@) + structure_tags(
            StructureFacts::Additive { singly_diagonal, explicit_first_stage, stiffly_accurate },
        ),
{
    let ghost s0 = tags_view(tags@);
    push_tag(tags, "structure", "additive");
    push_tag_when(tags, singly_diagonal, "structure", "singly diagonal");
    push_tag_when(tags, explicit_first_stage, "structure", "explicit first stage");
    push_tag_when(tags, stiffly_accurate, "structure", "stiffly accurate");
    assert(tags_view(tags@) =~= s0 + structure_tags(
        StructureFacts::Additive { singly_diagonal, explicit_first_stage, stiffly_accurate },
    ));
}

fn push_multistep_tags(tags: &mut Vec<Tag>, implicit: bool, needs_starter: bool)
    ensures
        tags_view(final(tags)@) == tags_view(old(tags)@) + structure_tags(
            StructureFacts::LinearMultistep { implicit, needs_starter },
        ),
{
    let ghost s0 = tags_view(tags@);
    push_tag(tags, "structure", "multistep");
    push_tag_either(tags, implicit, "structure", "implicit", "explicit");
    push_tag_either(tags, needs_starter, "structure", "needs a starter", "self starting");
    push_tag(tags, "control", "order reduced estimate");
    assert(tags_view(tags@) =~= s0 + structure_tags(
        StructureFacts::LinearMultistep { implicit, needs_starter },
    ));
}

fn push_rosenbrock_tags(
    tags: &mut Vec<Tag>,
    singly_diagonal: bool,
    stiffly_accurate: bool,
    embedded: bool,
)
    ensures
        tags_view(final(tags)@) == tags_view(old(tags)@) + structure_tags(
            StructureFacts::Rosenbrock { singly_diagonal, stiffly_accurate, embedded },
        ),
{
    let ghost s0 = tags_view(tags@);
    push_tag(tags, "structure", "linearly implicit");
    push_tag_when(tags, singly_diagonal, "structure", "singly diagonal");
    push_tag_when(tags, stiffly_accurate, "structure", "stiffly accurate");
    // The Jacobian is the formula here, not an accelerator: this is the one
    // family that cannot be run without one.
    push_tag(tags, "structure", "needs a Jacobian");
    push_tag_either(tags, embedded, "control", "embedded pair", "step doubling");
    assert(tags_view(tags@) =~= s0 + structure_tags(
        StructureFacts::Rosenbrock { singly_diagonal, stiffly_accurate, embedded },
    ));
}

fn push_runge_kutta_tags(
    tags: &mut Vec<Tag>,
    structure: Structure,
    singly_diagonal: bool,
    explicit_first_stage: bool,
    fsal: bool,
    stiffly_accurate: bool,
    embedded: bool,
)
    ensures
        tags_view(final(tags)@) == tags_view(old(tags)@) + structure_tags(
            StructureFacts::RungeKutta {
                structure,
                singly_diagonal,
                explicit_first_stage,
                fsal,
                stiffly_accurate,
                embedded,
            },
        ),
{
    let ghost s0 = tags_view(tags@);
    if structure == Structure::Explicit {
        push_tag(tags, "structure", "explicit");
    } else if singly_diagonal {
        push_tag(tags, "structure", "singly diagonal");
    } else if structure == Structure::DiagonallyImplicit {
        push_tag(tags, "structure", "diagonally implicit");
    } else {
        push_tag(tags, "structure", "fully implicit");
    }
    push_tag_when(tags, explicit_first_stage, "structure", "explicit first stage");
    push_tag_when(tags, fsal, "structure", "FSAL");
    push_tag_when(tags, stiffly_accurate, "structure", "stiffly accurate");
    push_tag_either(tags, embedded, "control", "embedded pair", "step doubling");
    assert(tags_view(tags@) =~= s0 + structure_tags(
        StructureFacts::RungeKutta {
            structure,
            singly_diagonal,
            explicit_first_stage,
            fsal,
            stiffly_accurate,
            embedded,
        },
    ));
}

fn push_stability_tags(tags: &mut Vec<Tag>, f: &MethodFacts)
    ensures
        tags_view(final(tags)@) == tags_view(old(tags)@) + stability_tags(*f),
{
    let ghost s0 = tags_view(tags@);
    if f.l_stable {
        push_tag(tags, "stability", "L-stable");
    } else if f.a_stable {
        push_tag(tags, "stability", "A-stable");
    } else if f.wedge == Wedge::Moderate || f.wedge == Wedge::Wide {
        push_tag(tags, "stability", "A(alpha)-stable");
    } else {
        push_tag(tags, "stability", "conditionally stable");
    }
    push_tag_either(
        tags,
        f.a_stable || f.wedge == Wedge::Wide,
        "use",
        "stiff problems",
        "non stiff problems",
    );
    let ghost s2 = tags_view(tags@);
    push_geometry_tags(tags, f);
    assert(tags_view(tags@) =~= s0 + stability_tags(*f));
}

/// The stability and geometry tags after the linear stability ones.
pub open spec fn further_tags(f: MethodFacts) -> Seq<(Seq<char>, Seq<char>)> {
    when(f.algebraically_stable == Some(true), "stability", "algebraically stable") + when(
        f.strong_stability_preserving,
        "stability",
        "strong stability preserving",
    ) + when(
        f.dissipation_order is None && f.dispersion_order is Some,
        "geometry",
        "non dissipative",
    ) + when(f.symplectic == Some(true), "geometry", "symplectic") + when(
        f.symmetric == Some(true),
        "geometry",
        "symmetric",
    )
}

fn push_geometry_tags(tags: &mut Vec<Tag>, f: &MethodFacts)
    ensures
        tags_view(final(tags)@) == tags_view(old(tags)@) + further_tags(*f),
{
    let ghost s0 = tags_view(tags@);
    let algebraic = match f.algebraically_stable {
        Some(b) => b,
        None => false,
    };
    push_tag_when(tags, algebraic, "stability", "algebraically stable");
    push_tag_when(tags, f.strong_stability_preserving, "stability", "strong stability preserving");
    push_tag_when(
        tags,
        f.dissipation_order.is_none() && f.dispersion_order.is_some(),
        "geometry",
        "non dissipative",
    );
    let symplectic = match f.symplectic {
        Some(b) => b,
        None => false,
    };
    push_tag_when(tags, symplectic, "geometry", "symplectic");
    let symmetric = match f.symmetric {
        Some(b) => b,
        None => false,
    };
    push_tag_when(tags, symmetric, "geometry", "symmetric");
    assert(tags_view(tags@) =~= s0 + further_tags(*f));
}

/// Every tag that applies to a method.
pub fn tags(facts: &MethodFacts) -> (tags: Vec<Tag>)
    ensures
        tags_view(tags@) == method_tags(*facts),
{
    let mut tags: Vec<Tag> = Vec::new();
    push_structure_tags(&mut tags, facts.structure);
    push_stability_tags(&mut tags, facts);
    let band = if facts.computed_order <= 2 {
        "order 1 to 2"
    } else if facts.computed_order <= 4 {
        "order 3 to 4"
    } else if facts.computed_order <= 6 {
        "order 5 to 6"
    } else {
        "order 7 and above"
    };
    push_tag(&mut tags, "order", band);
    push_tag_either(&mut tags, facts.adaptive, "control", "adaptive", "fixed step");
    push_tag_when(&mut tags, facts.exact_arithmetic, "provenance", "exact coefficients");
    let mut published = false;
    let mut i: usize = 0;
    while i < facts.references.len()
        invariant
            i <= facts.references@.len(),
            published == exists|j: int| 0 <= j < i && (#[trigger] facts.references@[j]).doi is Some,
        decreases facts.references@.len() - i,
    {
        if facts.references[i].doi.is_some() {
            published = true;
        }
        i = i + 1;
    }
    push_tag_when(&mut tags, published, "provenance", "published source");
    let ghost before = tags_view(tags@);
    let mut k: usize = 0;
    while k < facts.extra.len()
        invariant
            k <= facts.extra@.len(),
            tags_view(tags@) == before + extra_tags(facts.extra@.take(k as int)),
        decreases facts.extra@.len() - k,
    {
        let ghost step = tags_view(tags@);
        tags.push(tag("other", facts.extra[k].as_str()));
        proof {
            assert(extra_tags(facts.extra@.take(k + 1)) =~= extra_tags(facts.extra@.take(k as int)).push(("other"@, facts.extra@[k as int]@)));
            assert(tags_view(tags@) =~= step.push(("other"@, facts.extra@[k as int]@)));
        }
        k = k + 1;
    }
    proof {
        assert(facts.extra@.take(k as int) =~= facts.extra@);
    }
    tags
}

} // verus!
