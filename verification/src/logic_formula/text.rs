//! Formulas written out as text.
//!
//! A term is written as the name of its variable, with `¬` before it if it
//! is negated; the constants are written `⊤` and `⊥`.  The terms of a cube
//! are joined by ` ∧ `, the cubes of a formula by ` ∨ `.  A cube of
//! several terms stands in brackets if the formula has several cubes, and a
//! cube without terms is written `⊤`.  The names of the variables are given
//! by the caller.

use super::cube::DNFCube;
use super::form::DNFForm;
use super::intersperse::{join, joined};
use super::term::{FormulaTerm, VarId};
use vstd::prelude::*;
use vstd::string::StringExecFns;

verus! {

/// `text` is the term written out, with the variable named by `name`.
pub open spec fn is_term_text<Id: VarId, F: Fn(&Id) -> String>(
    term: FormulaTerm<Id>,
    name: F,
    text: Seq<char>,
) -> bool {
    match term {
        FormulaTerm::Var(v) => exists|label: String|
            #[trigger] name.ensures((&v,), label) && text == label@,
        FormulaTerm::NegVar(v) => exists|label: String|
            #[trigger] name.ensures((&v,), label) && text == "¬"@ + label@,
        FormulaTerm::True => text == "⊤"@,
        FormulaTerm::False => text == "⊥"@,
    }
}

/// `parts` are the terms of the cube written out, one for one.
pub open spec fn are_term_texts<Id: VarId, F: Fn(&Id) -> String>(
    terms: Seq<FormulaTerm<Id>>,
    name: F,
    parts: Seq<Seq<char>>,
) -> bool {
    &&& parts.len() == terms.len()
    &&& forall|j: int| 0 <= j < terms.len() ==> is_term_text(terms[j], name, #[trigger] parts[j])
}

/// `text` is the cube written out: its terms joined by ` ∧ `.
pub open spec fn is_cube_text<Id: VarId, F: Fn(&Id) -> String>(
    cube: DNFCube<Id>,
    name: F,
    text: Seq<char>,
) -> bool {
    exists|parts: Seq<Seq<char>>|
        #[trigger] are_term_texts(cube.terms@, name, parts) && text == joined(parts, " ∧ "@)
}

/// `part` is the cube as it stands in a formula of `cubes` cubes: `⊤` for a
/// cube without terms, the cube written out if it has one term or is the
/// only cube, and the cube written out in brackets else.
pub open spec fn is_cube_part<Id: VarId, F: Fn(&Id) -> String>(
    cube: DNFCube<Id>,
    cubes: int,
    name: F,
    part: Seq<char>,
) -> bool {
    if cube.terms@.len() == 0 {
        part == "⊤"@
    } else if cube.terms@.len() == 1 || cubes == 1 {
        is_cube_text(cube, name, part)
    } else {
        exists|inner: Seq<char>|
            #[trigger] is_cube_text(cube, name, inner) && part == "("@ + inner + ")"@
    }
}

/// `parts` are the cubes of the formula as they stand in it, one for one.
pub open spec fn are_cube_parts<Id: VarId, F: Fn(&Id) -> String>(
    cubes: Seq<DNFCube<Id>>,
    name: F,
    parts: Seq<Seq<char>>,
) -> bool {
    &&& parts.len() == cubes.len()
    &&& forall|i: int|
        0 <= i < cubes.len() ==> is_cube_part(cubes[i], cubes.len() as int, name, #[trigger] parts[i])
}

/// `text` is the formula written out: `DNFForm { f(X) = ... }`, with `⊥`
/// for the formula without cubes and else its cubes joined by ` ∨ `.
pub open spec fn is_form_text<Id: VarId, F: Fn(&Id) -> String>(
    form: DNFForm<Id>,
    name: F,
    text: Seq<char>,
) -> bool {
    if form.cubes@.len() == 0 {
        text == "DNFForm { f(X) = ⊥ }"@
    } else {
        exists|parts: Seq<Seq<char>>|
            #[trigger] are_cube_parts(form.cubes@, name, parts) && text == "DNFForm { f(X) = "@
                + joined(parts, " ∨ "@) + " }"@
    }
}

/// All variables of the terms can be named by `name`.
pub open spec fn can_name<Id: VarId, F: Fn(&Id) -> String>(terms: Seq<FormulaTerm<Id>>, name: F) -> bool {
    forall|j: int|
        0 <= j < terms.len() ==> match #[trigger] terms[j] {
            FormulaTerm::Var(v) => name.requires((&v,)),
            FormulaTerm::NegVar(v) => name.requires((&v,)),
            _ => true,
        }
}

impl<Id: VarId> FormulaTerm<Id> {
    /// The term written out, with the variable named by `name`.
    pub fn to_text<F: Fn(&Id) -> String>(&self, name: &F) -> (r: String)
        requires
            match self {
                FormulaTerm::Var(v) => name.requires((v,)),
                FormulaTerm::NegVar(v) => name.requires((v,)),
                _ => true,
            },
        ensures
            is_term_text(*self, *name, r@),
    {
        match self {
            FormulaTerm::Var(v) => name(v),
            FormulaTerm::NegVar(v) => {
                let label = name(v);
                let mut text = String::from_str("¬");
                text.append(label.as_str());
                text
            },
            FormulaTerm::True => String::from_str("⊤"),
            FormulaTerm::False => String::from_str("⊥"),
        }
    }
}

impl<Id: VarId> DNFCube<Id> {
    /// The cube written out, with the variables named by `name`.
    pub fn to_text<F: Fn(&Id) -> String>(&self, name: &F) -> (r: String)
        requires
            can_name(self.terms@, *name),
        ensures
            is_cube_text(*self, *name, r@),
    {
        let mut parts: Vec<String> = Vec::new();
        let mut j: usize = 0;
        while j < self.terms.len()
            invariant
                j <= self.terms@.len(),
                can_name(self.terms@, *name),
                parts@.len() == j,
                forall|k: int|
                    0 <= k < j ==> is_term_text(self.terms@[k], *name, (#[trigger] parts@[k])@),
            decreases self.terms@.len() - j,
        {
            parts.push(self.terms[j].to_text(name));
            j += 1;
        }
        let ghost texts = parts@.map_values(|s: String| s@);
        proof {
            assert forall|k: int| 0 <= k < self.terms@.len() implies is_term_text(
                self.terms@[k],
                *name,
                #[trigger] texts[k],
            ) by {
                assert(texts[k] == parts@[k]@);
            }
            assert(are_term_texts(self.terms@, *name, texts));
        }
        join(parts, " ∧ ")
    }
}

impl<Id: VarId> DNFForm<Id> {
    /// All variables of the formula can be named by `name`.
    pub open spec fn can_be_named<F: Fn(&Id) -> String>(&self, name: F) -> bool {
        forall|i: int| 0 <= i < self.cubes@.len() ==> can_name((#[trigger] self.cubes@[i]).terms@, name)
    }

    /// The formula written out, with the variables named by `name`.
    pub fn to_text<F: Fn(&Id) -> String>(&self, name: &F) -> (r: String)
        requires
            self.can_be_named(*name),
        ensures
            is_form_text(*self, *name, r@),
    {
        if self.cubes.len() == 0 {
            return String::from_str("DNFForm { f(X) = ⊥ }");
        }
        let n = self.cubes.len();
        let mut parts: Vec<String> = Vec::new();
        let mut i: usize = 0;
        while i < n
            invariant
                n == self.cubes@.len(),
                i <= n,
                self.can_be_named(*name),
                parts@.len() == i,
                forall|k: int|
                    0 <= k < i ==> is_cube_part(
                        self.cubes@[k],
                        n as int,
                        *name,
                        (#[trigger] parts@[k])@,
                    ),
            decreases n - i,
        {
            let cube = &self.cubes[i];
            let part = if cube.len() == 0 {
                String::from_str("⊤")
            } else if cube.len() == 1 || n == 1 {
                cube.to_text(name)
            } else {
                let inner = cube.to_text(name);
                let mut text = String::from_str("(");
                text.append(inner.as_str());
                text.append(")");
                text
            };
            parts.push(part);
            i += 1;
        }
        let ghost texts = parts@.map_values(|s: String| s@);
        proof {
            assert forall|k: int| 0 <= k < n implies is_cube_part(
                self.cubes@[k],
                n as int,
                *name,
                #[trigger] texts[k],
            ) by {
                assert(texts[k] == parts@[k]@);
            }
            assert(are_cube_parts(self.cubes@, *name, texts));
        }
        let mut text = String::from_str("DNFForm { f(X) = ");
        let body = join(parts, " ∨ ");
        text.append(body.as_str());
        text.append(" }");
        text
    }
}

} // verus!
