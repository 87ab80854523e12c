//! Step size control presets.
//!
//! Every adaptive method uses the same controller, written in Soederlind's
//! general digital filter form; the named controllers of the literature are
//! parameter sets of that one formula, and they are chosen by name.

use vstd::prelude::*;
use crate::text::{lemma_plain_key, lemma_plain_not_separator, lemma_snake_key, lookup_key, lookup_key_of, plain, spells};

verus! {

/// Named parameter sets. `Custom` keeps whatever the caller filled in.
#[derive(Copy, Clone, Debug, PartialEq, Eq, Structural)]
pub enum ControllerPreset {
    /// Deadbeat integral control, the classical `h * (1/e)^(1/k)`.
    I,
    /// Soederlind PI.3.3.3, a mild proportional integral filter.
    Pi3333,
    /// Soederlind PI.4.2, the common choice for explicit Runge-Kutta pairs.
    Pi4020,
    /// Hairer and Wanner's PI controller as used in DOPRI5.
    PiHairer,
    /// Soederlind H211PI, smoother than PI at the cost of response speed.
    H211Pi,
    /// Soederlind H211b with b = 4, includes step size ratio damping.
    H211b,
    /// Soederlind H312PID.
    H312Pid,
    /// Soederlind H312b with b = 8.
    H312b,
    /// Classical PID parameters.
    Pid,
    /// Gustafsson's predictive controller, the default of Radau5.
    Gustafsson,
    Custom,
}

/// The characters a preset name may be written with and still be found:
/// hyphens, underscores and dots are ignored.
pub open spec fn preset_separators() -> Seq<char> {
    seq!['-', '_', '.']
}

/// The preset a normalised name stands for.
pub open spec fn preset_for_key(k: Seq<char>) -> Option<ControllerPreset> {
    if k == "i"@ || k == "integral"@ || k == "elementary"@ || k == "standard"@ {
        Some(ControllerPreset::I)
    } else if k == "pi3333"@ {
        Some(ControllerPreset::Pi3333)
    } else if k == "pi4020"@ || k == "pi42"@ {
        Some(ControllerPreset::Pi4020)
    } else if k == "pihairer"@ || k == "hairer"@ {
        Some(ControllerPreset::PiHairer)
    } else if k == "h211pi"@ {
        Some(ControllerPreset::H211Pi)
    } else if k == "h211b"@ {
        Some(ControllerPreset::H211b)
    } else if k == "h312pid"@ {
        Some(ControllerPreset::H312Pid)
    } else if k == "h312b"@ {
        Some(ControllerPreset::H312b)
    } else if k == "pid"@ {
        Some(ControllerPreset::Pid)
    } else if k == "gustafsson"@ || k == "predictive"@ {
        Some(ControllerPreset::Gustafsson)
    } else if k == "custom"@ {
        Some(ControllerPreset::Custom)
    } else {
        None
    }
}

/// The canonical name of a preset.
pub open spec fn preset_name(p: ControllerPreset) -> Seq<char> {
    match p {
        ControllerPreset::I => "i"@,
        ControllerPreset::Pi3333 => "pi3333"@,
        ControllerPreset::Pi4020 => "pi4020"@,
        ControllerPreset::PiHairer => "pi_hairer"@,
        ControllerPreset::H211Pi => "h211pi"@,
        ControllerPreset::H211b => "h211b"@,
        ControllerPreset::H312Pid => "h312pid"@,
        ControllerPreset::H312b => "h312b"@,
        ControllerPreset::Pid => "pid"@,
        ControllerPreset::Gustafsson => "gustafsson"@,
        ControllerPreset::Custom => "custom"@,
    }
}

/// The presets with fixed parameters, every one but `Custom`.
pub open spec fn all_presets() -> Seq<ControllerPreset> {
    seq![
        ControllerPreset::I,
        ControllerPreset::Pi3333,
        ControllerPreset::Pi4020,
        ControllerPreset::PiHairer,
        ControllerPreset::H211Pi,
        ControllerPreset::H211b,
        ControllerPreset::H312Pid,
        ControllerPreset::H312b,
        ControllerPreset::Pid,
        ControllerPreset::Gustafsson,
    ]
}

impl ControllerPreset {
    /// The preset a name stands for: surrounding white space, case and the
    /// separators `-`, `_` and `.` do not matter.
    pub fn from_name(name: &str) -> (p: Option<ControllerPreset>)
        ensures
            p == preset_for_key(lookup_key(name@, preset_separators())),
    {
        proof {
            reveal_strlit("-_.");
        }
        let k = lookup_key_of(name, "-_.");
        assert("-_."@ =~= preset_separators());
        if spells(&k, "i") || spells(&k, "integral") || spells(&k, "elementary") || spells(
            &k,
            "standard",
        ) {
            Some(ControllerPreset::I)
        } else if spells(&k, "pi3333") {
            Some(ControllerPreset::Pi3333)
        } else if spells(&k, "pi4020") || spells(&k, "pi42") {
            Some(ControllerPreset::Pi4020)
        } else if spells(&k, "pihairer") || spells(&k, "hairer") {
            Some(ControllerPreset::PiHairer)
        } else if spells(&k, "h211pi") {
            Some(ControllerPreset::H211Pi)
        } else if spells(&k, "h211b") {
            Some(ControllerPreset::H211b)
        } else if spells(&k, "h312pid") {
            Some(ControllerPreset::H312Pid)
        } else if spells(&k, "h312b") {
            Some(ControllerPreset::H312b)
        } else if spells(&k, "pid") {
            Some(ControllerPreset::Pid)
        } else if spells(&k, "gustafsson") || spells(&k, "predictive") {
            Some(ControllerPreset::Gustafsson)
        } else if spells(&k, "custom") {
            Some(ControllerPreset::Custom)
        } else {
            None
        }
    }

    /// The canonical name.
    pub fn name(self) -> (n: &'static str)
        ensures
            n@ == preset_name(self),
    {
        match self {
            ControllerPreset::I => "i",
            ControllerPreset::Pi3333 => "pi3333",
            ControllerPreset::Pi4020 => "pi4020",
            ControllerPreset::PiHairer => "pi_hairer",
            ControllerPreset::H211Pi => "h211pi",
            ControllerPreset::H211b => "h211b",
            ControllerPreset::H312Pid => "h312pid",
            ControllerPreset::H312b => "h312b",
            ControllerPreset::Pid => "pid",
            ControllerPreset::Gustafsson => "gustafsson",
            ControllerPreset::Custom => "custom",
        }
    }

    /// Every preset with fixed parameters.
    pub fn all() -> (presets: &'static [ControllerPreset])
        ensures
            presets@ == all_presets(),
    {
        let presets: &'static [ControllerPreset] = &[
            ControllerPreset::I,
            ControllerPreset::Pi3333,
            ControllerPreset::Pi4020,
            ControllerPreset::PiHairer,
            ControllerPreset::H211Pi,
            ControllerPreset::H211b,
            ControllerPreset::H312Pid,
            ControllerPreset::H312b,
            ControllerPreset::Pid,
            ControllerPreset::Gustafsson,
        ];
        assert(presets@ =~= all_presets());
        presets
    }
}

/// A name written with letters and digits only is looked up as it is.
proof fn lemma_preset_plain_key(s: Seq<char>)
    requires
        s.len() > 0,
        plain(s),
    ensures
        lookup_key(s, preset_separators()) == s,
{
    lemma_plain_not_separator(s, preset_separators());
    lemma_plain_key(s, preset_separators());
}

/// Every preset is found again by its own name.
pub proof fn law_preset_name_round_trip(p: ControllerPreset)
    ensures
        preset_for_key(lookup_key(preset_name(p), preset_separators())) == Some(p),
{
    reveal_strlit("i");
    reveal_strlit("integral");
    reveal_strlit("elementary");
    reveal_strlit("standard");
    reveal_strlit("pi3333");
    reveal_strlit("pi4020");
    reveal_strlit("pi42");
    reveal_strlit("pi_hairer");
    reveal_strlit("pihairer");
    reveal_strlit("hairer");
    reveal_strlit("h211pi");
    reveal_strlit("h211b");
    reveal_strlit("h312pid");
    reveal_strlit("h312b");
    reveal_strlit("pid");
    reveal_strlit("gustafsson");
    reveal_strlit("predictive");
    reveal_strlit("custom");
    let n = preset_name(p);
    match p {
        ControllerPreset::PiHairer => {
            let a = seq!['p', 'i'];
            let b = seq!['h', 'a', 'i', 'r', 'e', 'r'];
            assert(n =~= a + seq!['_'] + b);
            lemma_plain_not_separator(a, preset_separators());
            lemma_plain_not_separator(b, preset_separators());
            assert(preset_separators()[1] == '_');
            lemma_snake_key(a, b, preset_separators());
            let k = lookup_key(n, preset_separators());
            assert(k =~= "pihairer"@);
            assert(k[0] != "integral"@[0]);
            assert(k[0] != "standard"@[0]);
        },
        ControllerPreset::Pi4020 => {
            lemma_preset_plain_key(n);
            assert(n[2] != "pi3333"@[2]);
        },
        ControllerPreset::H211Pi => {
            lemma_preset_plain_key(n);
            assert(n[0] != "pi3333"@[0]);
            assert(n[0] != "pi4020"@[0]);
            assert(n[1] != "hairer"@[1]);
        },
        ControllerPreset::H312b => {
            lemma_preset_plain_key(n);
            assert(n[1] != "h211b"@[1]);
        },
        ControllerPreset::Gustafsson => {
            lemma_preset_plain_key(n);
            assert(n[0] != "elementary"@[0]);
        },
        ControllerPreset::Custom => {
            lemma_preset_plain_key(n);
            assert(n[0] != "pi3333"@[0]);
            assert(n[0] != "pi4020"@[0]);
            assert(n[0] != "hairer"@[0]);
            assert(n[0] != "h211pi"@[0]);
        },
        _ => {
            lemma_preset_plain_key(n);
        },
    }
}

/// The keys each preset answers to: its canonical name and every alias, as
/// they read once looked up.
pub open spec fn preset_aliases(p: ControllerPreset) -> Seq<Seq<char>> {
    match p {
        ControllerPreset::I => seq!["i"@, "integral"@, "elementary"@, "standard"@],
        ControllerPreset::Pi3333 => seq!["pi3333"@],
        ControllerPreset::Pi4020 => seq!["pi4020"@, "pi42"@],
        ControllerPreset::PiHairer => seq!["pihairer"@, "hairer"@],
        ControllerPreset::H211Pi => seq!["h211pi"@],
        ControllerPreset::H211b => seq!["h211b"@],
        ControllerPreset::H312Pid => seq!["h312pid"@],
        ControllerPreset::H312b => seq!["h312b"@],
        ControllerPreset::Pid => seq!["pid"@],
        ControllerPreset::Gustafsson => seq!["gustafsson"@, "predictive"@],
        ControllerPreset::Custom => seq!["custom"@],
    }
}

/// Every alias finds its preset: written as it is documented, each name a
/// preset answers to is looked up as itself and gives that preset.
pub proof fn law_preset_alias_finds_preset(p: ControllerPreset, i: int)
    requires
        0 <= i < preset_aliases(p).len(),
    ensures
        lookup_key(preset_aliases(p)[i], preset_separators()) == preset_aliases(p)[i],
        preset_for_key(lookup_key(preset_aliases(p)[i], preset_separators())) == Some(p),
{
    reveal_strlit("i");
    reveal_strlit("integral");
    reveal_strlit("elementary");
    reveal_strlit("standard");
    reveal_strlit("pi3333");
    reveal_strlit("pi4020");
    reveal_strlit("pi42");
    reveal_strlit("pihairer");
    reveal_strlit("hairer");
    reveal_strlit("h211pi");
    reveal_strlit("h211b");
    reveal_strlit("h312pid");
    reveal_strlit("h312b");
    reveal_strlit("pid");
    reveal_strlit("gustafsson");
    reveal_strlit("predictive");
    reveal_strlit("custom");
    let k = preset_aliases(p)[i];
    lemma_preset_plain_key(k);
    // The names earlier in the lookup that have the same length differ in
    // one character.
    match p {
        ControllerPreset::I => {
            assert("standard"@[0] != "integral"@[0]);
        },
        ControllerPreset::Pi4020 => {
            assert("pi4020"@[2] != "pi3333"@[2]);
        },
        ControllerPreset::PiHairer => {
            assert("pihairer"@[0] != "integral"@[0]);
            assert("pihairer"@[0] != "standard"@[0]);
            assert("hairer"@[0] != "pi3333"@[0]);
            assert("hairer"@[0] != "pi4020"@[0]);
        },
        ControllerPreset::H211Pi => {
            assert("h211pi"@[0] != "pi3333"@[0]);
            assert("h211pi"@[0] != "pi4020"@[0]);
            assert("h211pi"@[1] != "hairer"@[1]);
        },
        ControllerPreset::H312b => {
            assert("h312b"@[1] != "h211b"@[1]);
        },
        ControllerPreset::Gustafsson => {
            assert("gustafsson"@[0] != "elementary"@[0]);
            assert("predictive"@[0] != "elementary"@[0]);
            assert("predictive"@[0] != "gustafsson"@[0]);
        },
        ControllerPreset::Custom => {
            assert("custom"@[0] != "pi3333"@[0]);
            assert("custom"@[0] != "pi4020"@[0]);
            assert("custom"@[0] != "hairer"@[0]);
            assert("custom"@[0] != "h211pi"@[0]);
        },
        _ => {},
    }
}

/// A key finds a preset only if it is one of that preset's names.
pub proof fn law_preset_found_only_by_its_names(k: Seq<char>, p: ControllerPreset)
    requires
        preset_for_key(k) == Some(p),
    ensures
        preset_aliases(p).contains(k),
{
    match p {
        ControllerPreset::I => {
            if k == "i"@ {
                assert(preset_aliases(p)[0] == k);
            } else if k == "integral"@ {
                assert(preset_aliases(p)[1] == k);
            } else if k == "elementary"@ {
                assert(preset_aliases(p)[2] == k);
            } else {
                assert(preset_aliases(p)[3] == k);
            }
        },
        ControllerPreset::Pi4020 => {
            if k == "pi4020"@ {
                assert(preset_aliases(p)[0] == k);
            } else {
                assert(preset_aliases(p)[1] == k);
            }
        },
        ControllerPreset::PiHairer => {
            if k == "pihairer"@ {
                assert(preset_aliases(p)[0] == k);
            } else {
                assert(preset_aliases(p)[1] == k);
            }
        },
        ControllerPreset::Gustafsson => {
            if k == "gustafsson"@ {
                assert(preset_aliases(p)[0] == k);
            } else {
                assert(preset_aliases(p)[1] == k);
            }
        },
        _ => {
            assert(preset_aliases(p)[0] == k);
        },
    }
}

} // verus!
