use rand::rngs::StdRng;
use rand::SeedableRng;
use robdd::{Bdd, BddError, BddNode, BddPartialValuation, BddPointer, BddValuation, BddVariable};

/// A small diagram over five variables for the formula `v3 & !v4`
/// (variables indexed from one, so indices 2 and 3).
fn mk_small_test_bdd() -> Bdd {
    let mut bdd = Bdd::mk_true(5);
    bdd.push_node(BddNode::mk_node(
        BddVariable(3), // !v4
        BddPointer::one(),
        BddPointer::zero(),
    ));
    bdd.push_node(BddNode::mk_node(
        BddVariable(2), // v3
        BddPointer::zero(),
        bdd.root_pointer(),
    ));
    bdd
}

fn var(i: u16) -> Bdd {
    Bdd::mk_var(5, BddVariable(i))
}

fn vars() -> (
    BddVariable,
    BddVariable,
    BddVariable,
    BddVariable,
    BddVariable,
) {
    (
        BddVariable(0),
        BddVariable(1),
        BddVariable(2),
        BddVariable(3),
        BddVariable(4),
    )
}

/// `x_0 & (!x_2 | x_3) & !x_4` over five variables.
fn formula_valuations() -> Bdd {
    var(0)
        .and(&var(2).not().or(&var(3)))
        .and(&var(4).not())
}

/// `(v1 => (v2 <=> v3)) & (!v1 => !(v2 <=> v5))` over five variables.
fn formula_relops() -> Bdd {
    let left = var(0).imp(&var(1).iff(&var(2)));
    let right = var(0).not().imp(&var(1).iff(&var(4)).not());
    left.and(&right)
}

/// `(v1 => (v4 <=> v5)) & (!v1 => !(v4 <=> v5))` over five variables.
fn formula_select() -> Bdd {
    let left = var(0).imp(&var(3).iff(&var(4)));
    let right = var(0).not().imp(&var(3).iff(&var(4)).not());
    left.and(&right)
}

#[test]
fn first_last_valuation() {
    let bdd = formula_valuations();

    let first_valuation = BddValuation(vec![true, false, false, false, false]);
    let last_valuation = BddValuation(vec![true, true, true, true, false]);

    assert_eq!(Some(first_valuation), bdd.first_valuation());
    assert_eq!(Some(last_valuation), bdd.last_valuation());
}

#[test]
fn first_last_path() {
    let (v0, _, v2, v3, v4) = vars();
    let bdd = formula_valuations();

    let first_path = BddPartialValuation::from_values(&[(v0, true), (v2, false), (v4, false)]);

    let last_path =
        BddPartialValuation::from_values(&[(v0, true), (v2, true), (v3, true), (v4, false)]);

    assert_eq!(Some(first_path), bdd.first_path());
    assert_eq!(Some(last_path), bdd.last_path());
}

#[test]
fn most_positive_negative_valuation() {
    let bdd = formula_valuations();

    let most_positive_valuation = BddValuation(vec![true, true, true, true, false]);
    let most_negative_valuation = BddValuation(vec![true, false, false, false, false]);

    assert_eq!(Some(most_positive_valuation), bdd.most_positive_valuation());
    assert_eq!(Some(most_negative_valuation), bdd.most_negative_valuation());
}

#[test]
fn bdd_var_projection() {
    let bdd = formula_relops();
    let v1 = BddVariable(0);
    let expected = var(1).iff(&var(2)).or(&var(1).iff(&var(4)).not());
    assert_eq!(bdd.var_project(v1), expected);
}

#[test]
fn bdd_var_pick() {
    let bdd = formula_relops();
    let v1 = BddVariable(0);
    let left = var(0).imp(&var(1).iff(&var(2)).and(&var(2).iff(&var(4))));
    let right = var(0).not().imp(&var(1).iff(&var(4)).not());
    assert_eq!(bdd.var_pick(v1), left.and(&right));
}

#[test]
fn bdd_var_pick_random() {
    let bdd = formula_relops();
    let v1 = BddVariable(0);
    let mut random = StdRng::seed_from_u64(1234567890);
    for _ in 0..10 {
        let picked = bdd.var_pick_random(v1, &mut random);
        assert_eq!(picked.and(&bdd), picked);
        let v1_true_paths = picked.var_select(v1, true).var_project(v1);
        let v1_false_paths = picked.var_select(v1, false).var_project(v1);
        assert!(v1_true_paths.and(&v1_false_paths).is_false());
    }
}

#[test]
fn bdd_var_select() {
    let bdd = formula_relops();
    let v1 = BddVariable(0);
    assert_eq!(var(0).and(&var(1).iff(&var(2))), bdd.var_select(v1, true));
    assert_eq!(
        var(0).not().and(&var(1).iff(&var(4)).not()),
        bdd.var_select(v1, false)
    );
}

#[test]
fn bdd_projection_trivial() {
    let bdd = mk_small_test_bdd(); // v_3 && !v_4
    let tt = Bdd::mk_true(5);
    let ff = Bdd::mk_false(5);

    let all_vars = (0..5).map(BddVariable).collect::<Vec<_>>();
    for k in 0..5 {
        assert_eq!(ff, ff.project(&all_vars[0..k]).unwrap());
        assert_eq!(tt, tt.project(&all_vars[0..k]).unwrap());
    }

    assert_eq!(bdd, bdd.project(&Vec::new()).unwrap());
    assert_eq!(tt, bdd.project(&all_vars).unwrap());
}

#[test]
fn bdd_projection_simple() {
    let (_, v2, v3, v4, v5) = vars();
    {
        let bdd = var(0).iff(&var(1)).and(&var(3).iff(&var(4)));
        let projected = var(0).iff(&var(1));
        assert_eq!(projected, bdd.project(&vec![v4, v5]).unwrap());
        assert_eq!(
            bdd.project(&vec![v3, v4, v5]).unwrap(),
            bdd.project(&vec![v4, v5]).unwrap()
        );
    }
    {
        let left = var(3).imp(&var(0).and(&var(1)));
        let right = var(3).not().imp(&var(0).not().and(&var(2)));
        let bdd = left.and(&right);
        let projected_3 = var(0).and(&var(1)).or(&var(0).not().and(&var(2)));
        let projected_2 = var(0).and(&var(1)).or(&var(0).not());
        assert_eq!(bdd, bdd.project(&vec![v5]).unwrap());
        assert_eq!(projected_3, bdd.project(&vec![v4]).unwrap());
        assert_eq!(projected_2, bdd.project(&vec![v3, v4]).unwrap());
        assert_eq!(Bdd::mk_true(5), bdd.project(&vec![v2, v3, v4]).unwrap());
    }
}

#[test]
fn bdd_pick_trivial() {
    let bdd = mk_small_test_bdd(); // v_3 && !v_4
    let tt = Bdd::mk_true(5);
    let ff = Bdd::mk_false(5);
    let (v1, v2, v3, v4, v5) = vars();

    assert_eq!(ff, ff.pick(&vec![v2, v3, v4]).unwrap());
    assert_eq!(ff, ff.pick(&vec![]).unwrap());

    assert_eq!(tt, tt.pick(&vec![]).unwrap());
    let expected = var(0)
        .not()
        .and(&var(1).not())
        .and(&var(2).not())
        .and(&var(3).not())
        .and(&var(4).not());
    assert_eq!(expected, tt.pick(&vec![v1, v2, v3, v4, v5]).unwrap());
    let expected = var(3).not().and(&var(4).not());
    assert_eq!(expected, tt.pick(&vec![v4, v5]).unwrap());

    assert_eq!(bdd, bdd.pick(&vec![]).unwrap());
    let expected = var(0)
        .not()
        .and(&var(1).not())
        .and(&var(2))
        .and(&var(3).not())
        .and(&var(4).not());
    assert_eq!(expected, bdd.pick(&vec![v1, v2, v3, v4, v5]).unwrap());
    let expected = var(2).and(&var(3).not()).and(&var(4).not());
    assert_eq!(expected, bdd.pick(&vec![v4, v5]).unwrap());
}

#[test]
fn bdd_pick_simple() {
    let bdd = formula_select();
    let expected_left = var(0).imp(&var(3).not().and(&var(4).not()));
    let expected_right = var(0).not().imp(&var(3).not().and(&var(4)));
    let expected = expected_left.and(&expected_right);
    let (v1, v2, v3, v4, v5) = vars();
    assert_eq!(expected, bdd.pick(&vec![v4, v5]).unwrap());
    assert_eq!(bdd, bdd.pick(&vec![v5]).unwrap());

    let bdd = var(0)
        .iff(&var(4))
        .and(&var(1).imp(&var(3)))
        .and(&var(2).xor(&var(1)));
    let witness_bdd = var(0)
        .not()
        .and(&var(1).not())
        .and(&var(2))
        .and(&var(3).not())
        .and(&var(4).not());
    assert_eq!(witness_bdd, bdd.pick(&vec![v1, v2, v3, v4, v5]).unwrap());
    let expected = {
        let pos = var(0).imp(
            &var(1)
                .not()
                .and(&var(2))
                .and(&var(3).not())
                .and(&var(4)),
        );
        let neg = var(0).not().imp(
            &var(1)
                .not()
                .and(&var(2))
                .and(&var(3).not())
                .and(&var(4).not()),
        );
        pos.and(&neg)
    };
    assert_eq!(expected, bdd.pick(&vec![v2, v3, v4, v5]).unwrap());
    let expected = {
        let c11 = var(0).and(&var(1)).imp(
            &var(2).not().and(&var(3)).and(&var(4)),
        );
        let c10 = var(0).and(&var(1).not()).imp(
            &var(2).and(&var(3).not()).and(&var(4)),
        );
        let c01 = var(0).not().and(&var(1)).imp(
            &var(2).not().and(&var(3)).and(&var(4).not()),
        );
        let c00 = var(0).not().and(&var(1).not()).imp(
            &var(2).and(&var(3).not()).and(&var(4).not()),
        );
        c11.and(&c10).and(&c01).and(&c00)
    };
    assert_eq!(expected, bdd.pick(&vec![v3, v4, v5]).unwrap());
    assert_eq!(expected, bdd.pick(&vec![v4, v5]).unwrap()); // accidentally, this works out
    assert_eq!(bdd, bdd.pick(&vec![v5]).unwrap());
    assert_eq!(bdd, bdd.pick(&vec![]).unwrap());
}

#[test]
fn bdd_pick_random() {
    let bdd = formula_select();
    let (_, v2, v3, _, _) = vars();

    let mut random = StdRng::seed_from_u64(1234567890);

    for _ in 0..100 {
        let picked = bdd.pick_random(&[v2, v3], &mut random).unwrap();
        assert_eq!(picked.and(&bdd), picked);

        let picked_00 = picked
            .select(&[(v2, false), (v3, false)])
            .unwrap()
            .project(&[v2, v3])
            .unwrap();
        let picked_01 = picked
            .select(&[(v2, false), (v3, true)])
            .unwrap()
            .project(&[v2, v3])
            .unwrap();
        let picked_10 = picked
            .select(&[(v2, true), (v3, false)])
            .unwrap()
            .project(&[v2, v3])
            .unwrap();
        let picked_11 = picked
            .select(&[(v2, true), (v3, true)])
            .unwrap()
            .project(&[v2, v3])
            .unwrap();

        assert!(picked_00.and(&picked_01).is_false());
        assert!(picked_00.and(&picked_10).is_false());
        assert!(picked_00.and(&picked_11).is_false());
        assert!(picked_01.and(&picked_10).is_false());
        assert!(picked_01.and(&picked_11).is_false());
        assert!(picked_10.and(&picked_11).is_false());
    }
}

#[test]
fn bdd_select() {
    let bdd = formula_select();
    let expected = var(0)
        .and(&var(2).not())
        .and(&var(3).not())
        .and(&var(4).not());
    let (v1, _, v3, v4, _) = vars();
    assert_eq!(
        expected,
        bdd.select(&[(v1, true), (v4, false), (v3, false)]).unwrap()
    );
}

#[test]
fn bdd_impl() {
    let bdd = mk_small_test_bdd();

    assert_eq!(4, bdd.size());
    assert_eq!(5, bdd.num_vars());
    assert_eq!(BddPointer(3), bdd.root_pointer());
    assert_eq!(BddPointer::one(), bdd.low_link_of(&BddPointer(2)));
    assert_eq!(BddPointer::zero(), bdd.high_link_of(&BddPointer(2)));
    assert_eq!(BddVariable(3), bdd.var_of(&BddPointer(2)));
    assert_eq!(BddPointer::zero(), bdd.low_link_of(&BddPointer(3)));
    assert_eq!(BddPointer(2), bdd.high_link_of(&BddPointer(3)));
    assert_eq!(BddVariable(2), bdd.var_of(&BddPointer(3)));
}

#[test]
fn bdd_eval_concrete() {
    let bdd = formula_valuations(); // x_0 & (!x_2 | x_3) & !x_4
    assert!(bdd.eval(&BddValuation(vec![true, false, false, false, false])));
    assert!(bdd.eval(&BddValuation(vec![true, true, true, true, false])));
    assert!(!bdd.eval(&BddValuation(vec![false, false, false, false, false])));
    assert!(!bdd.eval(&BddValuation(vec![true, false, true, false, false])));
    assert!(!bdd.eval(&BddValuation(vec![true, false, false, false, true])));
}

#[test]
fn bdd_mk_cube() {
    let (v1, _, v3, _, v5) = vars();
    let cube = Bdd::mk_cube(5, &[(v1, true), (v3, false), (v5, true)]).unwrap();
    let expected = var(0).and(&var(2).not()).and(&var(4));
    assert_eq!(expected, cube);
    assert_eq!(Bdd::mk_true(5), Bdd::mk_cube(5, &[]).unwrap());
}

#[test]
fn bdd_constructor_errors() {
    let (v1, _, _, _, _) = vars();
    assert_eq!(
        Err(BddError::InvalidVariable(BddVariable(7))),
        Bdd::mk_cube(5, &[(v1, true), (BddVariable(7), false)])
    );
    assert_eq!(
        Err(BddError::DuplicateVariable(v1)),
        Bdd::mk_cube(5, &[(v1, true), (v1, false)])
    );
    let mut bad = BddPartialValuation::empty();
    bad.set_value(BddVariable(9), true);
    assert_eq!(
        Err(BddError::InvalidVariable(BddVariable(9))),
        Bdd::mk_dnf(5, &[bad])
    );
    assert_eq!(
        Err(BddError::InvalidVariable(BddVariable(9))),
        formula_select().select(&[(BddVariable(9), true)])
    );
    assert_eq!(
        Err(BddError::InvalidVariable(BddVariable(9))),
        formula_select().project(&[BddVariable(9)])
    );
    assert_eq!(
        Err(BddError::InvalidVariable(BddVariable(9))),
        formula_select().pick(&[BddVariable(9)])
    );
    assert_eq!(
        Err(BddError::DuplicateVariable(v1)),
        formula_select().pick(&[v1, v1])
    );
    match Bdd::mk_true(3).try_apply(&Bdd::mk_true(5), robdd::BooleanOp::conj()) {
        Err(BddError::ShapeMismatch { left, right }) => {
            assert_eq!(3, left);
            assert_eq!(5, right);
        }
        _ => panic!("expected a shape mismatch"),
    }
}

#[test]
fn bdd_dnf_round_trip() {
    let diagrams = vec![
        Bdd::mk_false(5),
        Bdd::mk_true(5),
        mk_small_test_bdd(),
        formula_valuations(),
        formula_relops(),
        formula_select(),
        var(0).xor(&var(1)).xor(&var(2)).xor(&var(3)).xor(&var(4)),
    ];
    for d in diagrams {
        let cubes = d.to_dnf();
        assert_eq!(d, Bdd::mk_dnf(d.num_vars(), &cubes).unwrap());
    }
    assert!(Bdd::mk_dnf(5, &[]).unwrap().is_false());
    assert!(Bdd::mk_dnf(5, &[BddPartialValuation::empty()])
        .unwrap()
        .is_true());
}

#[test]
fn bdd_boolean_laws() {
    let a = formula_relops();
    let b = formula_select();
    let c = formula_valuations();
    // De Morgan.
    assert_eq!(a.and(&b).not(), a.not().or(&b.not()));
    assert_eq!(a.or(&b).not(), a.not().and(&b.not()));
    // Distributivity.
    assert_eq!(a.and(&b.or(&c)), a.and(&b).or(&a.and(&c)));
    assert_eq!(a.or(&b.and(&c)), a.or(&b).and(&a.or(&c)));
    // Double negation, and implication as a disjunction.
    assert_eq!(a, a.not().not());
    assert_eq!(a.imp(&b), a.not().or(&b));
    assert_eq!(a.iff(&b), a.imp(&b).and(&b.imp(&a)));
    assert_eq!(a.xor(&b), a.iff(&b).not());
}

#[test]
fn bdd_idempotence() {
    let a = formula_relops();
    let (_, _, v3, v4, _) = vars();
    assert_eq!(a, a.and(&a));
    assert_eq!(a, a.or(&a));
    let once = a.project(&[v3, v4]).unwrap();
    assert_eq!(once, once.project(&[v3, v4]).unwrap());
    let chosen = [(v3, true), (v4, false)];
    let selected = a.select(&chosen).unwrap();
    assert_eq!(selected, selected.select(&chosen).unwrap());
}

#[test]
fn bdd_pick_c_scenario() {
    // C = (v1 => (v4 <=> v5)) & (!v1 => !(v4 <=> v5)) over five variables;
    // picking is deterministic and already-functional picks are kept.
    let c = formula_select();
    let (_, _, _, v4, v5) = vars();
    let expected_left = var(0).imp(&var(3).not().and(&var(4).not()));
    let expected_right = var(0).not().imp(&var(3).not().and(&var(4)));
    assert_eq!(expected_left.and(&expected_right), c.pick(&[v4, v5]).unwrap());
    assert_eq!(c, c.pick(&[v5]).unwrap());
}

#[test]
fn bdd_canonicity_scenarios() {
    // Semantically equal constructions land on byte-for-byte equal arrays.
    let small = mk_small_test_bdd();
    assert_eq!(small, var(2).and(&var(3).not()));
    let a = formula_valuations();
    assert_eq!(
        a,
        var(4)
            .not()
            .and(&var(3).or(&var(2).not()))
            .and(&var(0))
    );
    assert!(var(1).and(&var(1).not()).is_false());
    assert!(var(1).or(&var(1).not()).is_true());
}
