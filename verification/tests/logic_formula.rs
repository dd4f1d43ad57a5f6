use nisp::logic_formula::FormulaTerm::{False, NegVar, True, Var};
use nisp::logic_formula::intersperse::{join, MakeIntersperse};
use nisp::logic_formula::{DNFCube, DNFForm, FormulaTerm, MergableDNFForm, ReductibleDNFCube};

const A: u32 = 0;
const B: u32 = 1;
const C: u32 = 2;
const X: u32 = 23;
const Y: u32 = 24;
const Z: u32 = 25;

fn cube(terms: Vec<FormulaTerm<u32>>) -> DNFCube<u32> {
    DNFCube { terms }
}

#[test]
fn test_variable_comparison() {
    assert!(False < Var(A));
    assert!(Var(A) < NegVar(A));
    assert!(NegVar(A) < Var(B));
    assert!(Var(B) < True);
}

#[test]
fn test_variable_sorting() {
    let mut cube = DNFCube::new();

    cube.add_term(Var(C));
    cube.add_term(Var(A));
    cube.add_term(NegVar(B));
    cube.add_term(True);

    let expected = DNFCube { terms: vec![Var(A), NegVar(B), Var(C), True] };

    assert_eq!(cube, expected);
}

#[test]
fn test_reduction_of_two_same_cubes() {
    let form1 = DNFForm::new().add_cube(DNFCube { terms: vec![Var(X)] });

    let form2 = form1.clone();

    let expected = form1.clone();

    let result = form1.disjunct(form2);
    assert_eq!(result, expected);
}

#[test]
fn test_cube_failed_merging_simple() {
    let form1 = DNFForm::new()
        .add_cube(DNFCube { terms: vec![NegVar(X)] })
        .add_cube(DNFCube { terms: vec![NegVar(Y), NegVar(Z)] });

    let mut expected = DNFForm::new();
    expected.cubes.push(DNFCube { terms: vec![NegVar(X)] });
    expected.cubes.push(DNFCube { terms: vec![NegVar(Y), NegVar(Z)] });

    assert_eq!(form1, expected);
}

#[test]
fn test_reduction_of_overspecification_left() {
    let form1 = DNFForm::new()
        .add_cube(DNFCube { terms: vec![NegVar(X), NegVar(Y)] })
        .add_cube(DNFCube { terms: vec![NegVar(Y)] });

    let mut expected = DNFForm::new();
    expected.cubes.push(DNFCube { terms: vec![NegVar(Y)] });

    assert_eq!(form1, expected);
}

#[test]
fn test_reduction_of_overspecification_right() {
    let form1 = DNFForm::new()
        .add_cube(DNFCube { terms: vec![NegVar(Y)] })
        .add_cube(DNFCube { terms: vec![NegVar(X), NegVar(Y)] });

    let mut expected = DNFForm::new();
    expected.cubes.push(DNFCube { terms: vec![NegVar(Y)] });

    assert_eq!(form1, expected);
}

#[test]
fn test_no_reduction_of_complementaries_left() {
    let form1 = DNFForm::new()
        .add_cube(DNFCube { terms: vec![NegVar(X), NegVar(Y), Var(Z)] })
        .add_cube(DNFCube { terms: vec![Var(X), Var(Y), Var(Z)] });

    let mut expected = DNFForm::new();
    expected.cubes.push(DNFCube { terms: vec![NegVar(X), NegVar(Y), Var(Z)] });
    expected.cubes.push(DNFCube { terms: vec![Var(X), Var(Y), Var(Z)] });

    assert_eq!(form1, expected);
}

#[test]
fn test_no_reduction_of_same() {
    let form1 = DNFForm::new()
        .add_cube(DNFCube { terms: vec![NegVar(X), NegVar(Y), Var(Z)] })
        .add_cube(DNFCube { terms: vec![NegVar(X), NegVar(Y), Var(Z)] });

    let expected = DNFForm::new().add_cube(DNFCube { terms: vec![NegVar(X), NegVar(Y), Var(Z)] });

    assert_eq!(form1, expected);
}

#[test]
fn test_reduction_of_same_2() {
    let form1 = DNFForm::new()
        .add_cube(DNFCube { terms: vec![NegVar(X), NegVar(Y), Var(Z)] })
        .add_cube(DNFCube { terms: vec![NegVar(X), NegVar(Y), Var(Z)] });

    let expected = DNFForm::new().add_cube(DNFCube { terms: vec![NegVar(X), NegVar(Y), Var(Z)] });

    assert_eq!(form1, expected);
}

#[test]
fn test_reduction_of_two_different_cubes() {
    let form1 = DNFForm::new().add_cube(DNFCube { terms: vec![NegVar(X)] });
    let form2 = DNFForm::new().add_cube(DNFCube { terms: vec![Var(X)] });

    let result = form1.disjunct(form2).optimize();
    let expected = DNFForm::new().add_cube(DNFCube { terms: vec![] });

    assert_eq!(result, expected);
    assert_eq!(result.num_cubes(), 1);
}

#[test]
fn merging_reduces_two_different_cubes() {
    let form1 = DNFForm::new().add_cube(DNFCube { terms: vec![NegVar(X)] });
    let form2 = DNFForm::new().add_cube(DNFCube { terms: vec![Var(X)] });

    let result = form1.disjunct_opt(form2);

    assert_eq!(result.cubes, vec![cube(vec![])]);
}

#[test]
fn test_reduction_of_complementaries_left() {
    let form1 = DNFForm::new()
        .add_cube(DNFCube { terms: vec![NegVar(X), NegVar(Y)] })
        .add_cube(DNFCube { terms: vec![Var(X), NegVar(Y)] })
        .optimize();

    assert_eq!(form1.cubes, vec![cube(vec![NegVar(Y)])]);
}

#[test]
fn test_reduction_of_complementaries_right() {
    let form1 = DNFForm::new()
        .add_cube(DNFCube { terms: vec![Var(X), NegVar(Y)] })
        .add_cube(DNFCube { terms: vec![NegVar(X), NegVar(Y)] })
        .optimize();

    assert_eq!(form1.cubes, vec![cube(vec![NegVar(Y)])]);
}

#[test]
fn merging_reduces_complementaries() {
    let form1 = DNFForm::new()
        .add_cube_opt(DNFCube { terms: vec![NegVar(X), NegVar(Y)] })
        .add_cube_opt(DNFCube { terms: vec![Var(X), NegVar(Y)] });

    assert_eq!(form1.cubes, vec![cube(vec![NegVar(Y)])]);
}

#[test]
fn test_double_reduction_of_complementaries() {
    let form1 = DNFForm::new()
        .add_cube(DNFCube { terms: vec![NegVar(X), NegVar(Y), Var(Z)] })
        .add_cube(DNFCube { terms: vec![Var(X), Var(Y), Var(Z)] })
        .add_cube(DNFCube { terms: vec![NegVar(X), Var(Y), Var(Z)] })
        .optimize();

    let mut expected = DNFForm::new();
    expected.cubes.push(DNFCube { terms: vec![NegVar(X), Var(Z)] });
    expected.cubes.push(DNFCube { terms: vec![Var(Y), Var(Z)] });

    assert_eq!(form1, expected);
    assert_eq!(form1.cubes, vec![cube(vec![Var(Y), Var(Z)]), cube(vec![NegVar(X), Var(Z)])]);
}

#[test]
fn test_quadruple_reduction_of_complementaries() {
    let form1 = DNFForm::new()
        .add_cube(DNFCube { terms: vec![NegVar(X), NegVar(Y), Var(Z)] })
        .add_cube(DNFCube { terms: vec![Var(X), Var(Y), Var(Z)] })
        .add_cube(DNFCube { terms: vec![NegVar(X), Var(Y), Var(Z)] })
        .add_cube(DNFCube { terms: vec![Var(X), NegVar(Y), Var(Z)] })
        .optimize();

    assert_eq!(form1.cubes, vec![cube(vec![Var(Z)])]);
}

#[test]
fn optimizer_is_idempotent() {
    let once = DNFForm::new()
        .add_cube(cube(vec![NegVar(X), NegVar(Y), Var(Z)]))
        .add_cube(cube(vec![Var(X), Var(Y), Var(Z)]))
        .add_cube(cube(vec![NegVar(X), Var(Y), Var(Z)]))
        .add_cube(cube(vec![Var(A)]))
        .optimize();
    let twice = once.clone().optimize();
    assert_eq!(once.cubes, twice.cubes);
}

#[test]
fn optimizer_makes_a_false_cube_plain() {
    let mut form = DNFForm::new();
    form.cubes.push(cube(vec![False, Var(X)]));
    let result = form.optimize();
    assert_eq!(result.cubes, vec![cube(vec![False])]);
}

#[test]
fn optimizer_ends_on_two_different_false_cubes() {
    let mut form = DNFForm::new();
    form.cubes.push(cube(vec![False, Var(X)]));
    form.cubes.push(cube(vec![False, Var(Y)]));
    let once = form.optimize();
    assert_eq!(once.cubes, vec![cube(vec![False]), cube(vec![False])]);
    let twice = once.clone().optimize();
    assert_eq!(once.cubes, twice.cubes);
}

#[test]
fn optimizer_ends_on_a_plain_and_a_longer_false_cube() {
    let mut form = DNFForm::new();
    form.cubes.push(cube(vec![False]));
    form.cubes.push(cube(vec![False, Var(X)]));
    form.cubes.push(cube(vec![Var(A), Var(B)]));
    let once = form.optimize();
    assert!(once.num_cubes() <= 3);
    assert!(once.cubes.contains(&cube(vec![Var(A), Var(B)])));
    for c in once.cubes.iter() {
        assert!(!c.terms.contains(&False) || c.terms == vec![False]);
    }
    let twice = once.clone().optimize();
    assert_eq!(once.cubes, twice.cubes);
}

#[test]
fn term_order_is_total() {
    let terms: Vec<FormulaTerm<u32>> =
        vec![False, Var(A), NegVar(A), Var(B), NegVar(B), Var(X), NegVar(X), True];
    for (i, a) in terms.iter().enumerate() {
        for (j, b) in terms.iter().enumerate() {
            let count = (a < b) as u32 + (a == b) as u32 + (b < a) as u32;
            assert_eq!(count, 1);
            assert_eq!(a < b, i < j);
        }
    }
}

#[test]
fn negation_of_terms() {
    assert!(Var(A).neg_eq(&NegVar(A)));
    assert!(NegVar(A).neg_eq(&Var(A)));
    assert!(True::<u32>.neg_eq(&False));
    assert!(False::<u32>.neg_eq(&True));
    assert!(!Var(A).neg_eq(&NegVar(B)));
    assert!(!Var(A).neg_eq(&Var(A)));
    assert!(!True::<u32>.neg_eq(&True));
}

#[test]
fn map_renames_the_variable() {
    assert_eq!(Var(A).map(|v: u32| v + 10), Var(10u32));
    assert_eq!(NegVar(B).map(|v: u32| v + 10), NegVar(11u32));
    assert_eq!(True::<u32>.map(|v: u32| v + 10), True);
    assert_eq!(False::<u32>.map(|v: u32| v + 10), False);
}

#[test]
fn complement_collapses_to_false() {
    let mut c = cube(vec![Var(A), NegVar(B), Var(C)]);
    c.add_term(Var(B));
    assert_eq!(c, cube(vec![False]));

    let mut c = cube(vec![Var(A), Var(B)]);
    c.add_term(NegVar(B));
    assert_eq!(c, cube(vec![False]));

    let mut c = cube(vec![Var(A), True]);
    c.add_term(False);
    assert_eq!(c, cube(vec![False]));

    let mut c = cube(vec![False, Var(A)]);
    c.add_term(True);
    assert_eq!(c, cube(vec![False]));
}

#[test]
fn add_term_keeps_the_normal_form() {
    let mut c = DNFCube::new();
    assert!(c.is_normal());
    for t in [Var(C), NegVar(A), Var(C), Var(B), True, NegVar(X), Var(Y), True] {
        c.add_term(t);
        assert!(c.is_normal());
    }
    assert_eq!(c, cube(vec![NegVar(A), Var(B), Var(C), NegVar(X), Var(Y), True]));
    assert_eq!(c.len(), 6);

    let mut d = cube(vec![Var(B)]);
    d.add_term(False);
    assert_eq!(d, cube(vec![False, Var(B)]));
    assert!(d.is_normal());
    assert!(d.is_false_const());
}

#[test]
fn constant_cubes() {
    assert!(DNFCube::<u32>::new().is_true_const());
    assert!(cube(vec![True]).is_true_const());
    assert!(!cube(vec![Var(A), True]).is_true_const());
    assert!(!DNFCube::<u32>::new().is_false_const());
    assert!(cube(vec![False]).is_false_const());
    assert!(cube(vec![False, Var(A)]).is_false_const());
    assert!(!cube(vec![Var(A), True]).is_false_const());
    assert!(!cube(vec![Var(B), Var(A)]).is_normal());
    assert!(!cube(vec![Var(A), Var(A)]).is_normal());
    assert!(!cube(vec![Var(A), NegVar(A)]).is_normal());
    assert!(!cube(vec![False, True]).is_normal());
}

#[test]
fn reduction_of_a_cube_with_itself() {
    for c in [
        cube(vec![]),
        cube(vec![Var(A)]),
        cube(vec![NegVar(A), Var(B), True]),
        cube(vec![False]),
        cube(vec![False, Var(A)]),
    ] {
        assert_eq!(c.try_to_reduce_disjunction(&c), Some(c.clone()));
    }
}

#[test]
fn reduction_of_complementary_cubes() {
    let base = cube(vec![Var(A), NegVar(C), True]);
    let mut with = base.clone();
    with.add_term(Var(B));
    let mut without = base.clone();
    without.add_term(NegVar(B));
    assert_eq!(with, cube(vec![Var(A), Var(B), NegVar(C), True]));
    assert_eq!(with.try_to_reduce_disjunction(&without), Some(base.clone()));
    assert_eq!(without.try_to_reduce_disjunction(&with), Some(base));
}

#[test]
fn reduction_absorbs_the_longer_cube() {
    let base = cube(vec![Var(A), NegVar(C), True]);
    for t in [Var(B), NegVar(X), NegVar(A), Var(C), False, True, Var(A)] {
        let mut longer = base.clone();
        longer.add_term(t);
        assert_eq!(base.try_to_reduce_disjunction(&longer), Some(base.clone()));
        assert_eq!(longer.try_to_reduce_disjunction(&base), Some(base.clone()));
    }
}

#[test]
fn reduction_gives_way_to_the_other_cube_at_false() {
    let f = cube(vec![False, Var(A)]);
    let c = cube(vec![Var(B)]);
    assert_eq!(f.try_to_reduce_disjunction(&c), Some(c.clone()));
    assert_eq!(c.try_to_reduce_disjunction(&f), Some(c.clone()));
    assert_eq!(f.try_to_reduce_disjunction(&cube(vec![False])), Some(cube(vec![False])));
}

#[test]
fn reduction_that_is_not_found() {
    let a = cube(vec![Var(A), Var(B)]);
    let b = cube(vec![NegVar(A), NegVar(B)]);
    assert_eq!(a.try_to_reduce_disjunction(&b), None);
    let a = cube(vec![Var(A)]);
    let b = cube(vec![Var(B)]);
    assert_eq!(a.try_to_reduce_disjunction(&b), None);
    let a = cube(vec![Var(A)]);
    let b = cube(vec![NegVar(A), Var(B)]);
    assert_eq!(a.try_to_reduce_disjunction(&b), None);
    assert_eq!(b.try_to_reduce_disjunction(&a), None);
    let a = cube(vec![Var(A), Var(B), Var(C)]);
    let b = cube(vec![Var(B)]);
    assert_eq!(a.try_to_reduce_disjunction(&b), Some(b.clone()));
    assert_eq!(b.try_to_reduce_disjunction(&a), Some(b));
}

fn holds(c: &DNFCube<u32>, bits: u32) -> bool {
    c.terms.iter().all(|t| match t {
        Var(v) => bits >> v & 1 == 1,
        NegVar(v) => bits >> v & 1 == 0,
        True => true,
        False => false,
    })
}

fn all_cubes(vars: u32) -> Vec<DNFCube<u32>> {
    let mut cubes = vec![DNFCube::new()];
    for v in 0..vars {
        let mut next = Vec::new();
        for c in &cubes {
            next.push(c.clone());
            let mut with = c.clone();
            with.add_term(Var(v));
            next.push(with);
            let mut without = c.clone();
            without.add_term(NegVar(v));
            next.push(without);
        }
        cubes = next;
    }
    let mut with_constants = Vec::new();
    for c in &cubes {
        with_constants.push(c.clone());
        let mut t = c.clone();
        t.add_term(True);
        with_constants.push(t);
        let mut f = c.clone();
        f.add_term(False);
        with_constants.push(f);
    }
    with_constants
}

#[test]
fn reduction_is_never_wrong() {
    let cubes = all_cubes(3);
    for a in &cubes {
        for b in &cubes {
            if let Some(r) = a.try_to_reduce_disjunction(b) {
                assert!(r.is_normal());
                for bits in 0..8 {
                    assert_eq!(holds(&r, bits), holds(a, bits) || holds(b, bits));
                }
            }
        }
    }
}

#[test]
fn subcube_is_implication() {
    let cubes = all_cubes(3);
    for a in &cubes {
        for b in &cubes {
            let implied = (0..8).all(|bits| !holds(a, bits) || holds(b, bits));
            assert_eq!(a.is_subcube(b), implied);
        }
    }
}

#[test]
fn subformula_is_sound() {
    let cubes = all_cubes(2);
    for a in &cubes {
        for b in &cubes {
            for c in &cubes {
                let f = DNFForm::new().add_cube(a.clone()).add_cube(b.clone());
                let one = DNFForm::new().add_cube(c.clone());
                let implied = (0..4).all(|bits| {
                    !(holds(a, bits) || holds(b, bits)) || holds(c, bits)
                });
                assert_eq!(f.is_subformula_of(&one), implied);
                if one.is_subformula_of(&f) {
                    assert!((0..4).all(|bits| !holds(c, bits) || holds(a, bits) || holds(b, bits)));
                }
            }
        }
    }
    let top = DNFForm::new().add_cube(cube(vec![]));
    let split = DNFForm::new().add_cube(cube(vec![Var(A)])).add_cube(cube(vec![NegVar(A)]));
    assert!(!top.is_subformula_of(&split));
    assert!(split.is_subformula_of(&top));
    let bottom: DNFForm<u32> = DNFForm::new();
    assert!(bottom.is_subformula_of(&split));
    assert!(!split.is_subformula_of(&bottom));
    assert_eq!(bottom.num_cubes(), 0);
}

#[test]
fn conjunction_with_a_term() {
    let f = DNFForm::new()
        .add_cube(cube(vec![Var(A)]))
        .add_cube(cube(vec![NegVar(B), Var(C)]))
        .conjunct_term(&Var(B));
    assert_eq!(f.cubes, vec![cube(vec![Var(A), Var(B)]), cube(vec![False])]);
    let g = f.conjunct_term_with(0, NegVar(C));
    assert_eq!(g.cubes, vec![cube(vec![Var(A), Var(B), NegVar(C)]), cube(vec![False])]);
}

#[test]
fn merging_takes_out_false_cubes() {
    let f = DNFForm::new().add_cube(cube(vec![False])).add_cube(cube(vec![Var(A)]));
    let g = f.add_cube_opt(cube(vec![False]));
    assert_eq!(g.cubes, vec![cube(vec![Var(A)])]);
    let h = DNFForm::new().add_cube(cube(vec![Var(A)])).add_cube(cube(vec![Var(B)]));
    let h = h.add_cube_opt(cube(vec![Var(C)]));
    assert_eq!(h.cubes, vec![cube(vec![Var(A)]), cube(vec![Var(B)]), cube(vec![Var(C)])]);
    let k = DNFForm::new().add_cube(cube(vec![Var(A), Var(B)])).add_cube(cube(vec![Var(C)]));
    let k = k.add_cube_opt(cube(vec![Var(A)]));
    assert_eq!(k.cubes, vec![cube(vec![Var(A)]), cube(vec![Var(C)])]);
}

#[test]
fn map_renames_the_variables_of_a_cube() {
    let c = cube(vec![Var(A), NegVar(B), True]);
    let mapped: DNFCube<u64> = c.map(|v: u32| 100 - v as u64);
    assert_eq!(mapped.terms, vec![Var(100u64), NegVar(99u64), True]);
    assert!(!mapped.is_normal());
    let kept: DNFCube<u64> = cube(vec![False, Var(A), NegVar(B)]).map(|v: u32| v as u64 * 2);
    assert_eq!(kept.terms, vec![False, Var(0u64), NegVar(2u64)]);
    assert!(kept.is_normal());
}

fn letter(v: &u32) -> String {
    ((b'a' + *v as u8) as char).to_string()
}

#[test]
fn formulas_are_written_out() {
    let empty: DNFForm<u32> = DNFForm::new();
    assert_eq!(empty.to_text(&letter), "DNFForm { f(X) = ⊥ }");
    let form = DNFForm::new()
        .add_cube(cube(vec![Var(A), NegVar(B)]))
        .add_cube(cube(vec![Var(C)]))
        .add_cube(cube(vec![]))
        .add_cube(cube(vec![False, Var(X), True]));
    assert_eq!(form.to_text(&letter), "DNFForm { f(X) = (a ∧ ¬b) ∨ c ∨ ⊤ ∨ (⊥ ∧ x ∧ ⊤) }");
    let single = DNFForm::new().add_cube(cube(vec![Var(A), NegVar(B)]));
    assert_eq!(single.to_text(&letter), "DNFForm { f(X) = a ∧ ¬b }");
    assert_eq!(cube(vec![NegVar(Z), True]).to_text(&letter), "¬z ∧ ⊤");
    assert_eq!(cube(vec![]).to_text(&letter), "");
    assert_eq!(NegVar(Y).to_text(&letter), "¬y");
    assert_eq!(Var(Y).to_text(&letter), "y");
    assert_eq!(True::<u32>.to_text(&letter), "⊤");
    assert_eq!(False::<u32>.to_text(&letter), "⊥");
}

#[test]
fn separators_stand_between_items() {
    let items = vec!["a".to_string(), "b".to_string(), "c".to_string()];
    let mut it = items.clone().tmp_intersperse(", ".to_string());
    let mut seen = Vec::new();
    while let Some(s) = it.next() {
        seen.push(s);
    }
    assert_eq!(seen, vec!["a", ", ", "b", ", ", "c"]);
    assert_eq!(it.next(), None);
    let mut it = items.clone().tmp_intersperse("-".to_string());
    assert_eq!(it.next(), Some("a".to_string()));
    assert_eq!(it.fold("x".to_string()), "x-b-c");
    assert_eq!(join(items, " + "), "a + b + c");
    assert_eq!(join(vec!["a".to_string()], " + "), "a");
    assert_eq!(join(vec![], " + "), "");
}
