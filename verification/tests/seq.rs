use meadow::seq::ir::{still_used, Block, Extern, Label, Name, Statement};
use meadow::terms::prim::Prim;

fn n(i: u32) -> Name {
    i
}

fn block(params: Vec<Name>, body: Statement) -> Block {
    Block { params, body }
}

/// A continuation's captures are a use *here*; what its methods do with them later is not,
/// because they have been copied into the object.
#[test]
fn capturing_a_name_is_the_last_use_of_it() {
    // new k2 { (a, b) => invoke a#0 } capturing [a, b];
    //   substitute [k2] in jump L
    let onwards = || {
        Statement::Substitute(
            vec![n(10)],
            Box::new(block(vec![n(10)], Statement::Jump(Label(0)))),
        )
    };
    let s = Statement::New {
        name: n(10),
        captures: vec![n(1), n(2)],
        methods: vec![block(vec![n(1), n(2)], Statement::Invoke(n(1), 0))],
        rest: Box::new(onwards()),
    };
    let used = still_used(&s).expect("narrowable");
    assert!(used.contains(&n(1)), "captured, so read here");
    assert!(used.contains(&n(2)));
    assert!(used.contains(&n(10)), "and the object is handed on");

    // After the capture the frame wants only the object. What the method
    // does with `a` and `b` later is the method's business; they are in it.
    let after = still_used(&onwards()).expect("narrowable");
    assert!(!after.contains(&n(1)), "the method's use is not this frame's");
    assert!(!after.contains(&n(2)));
}

/// A bare `jump` or `invoke` hands the environment on whole.
#[test]
fn handing_the_environment_on_whole_narrows_nothing() {
    assert!(still_used(&Statement::Jump(Label(1))).is_none());
    assert!(still_used(&Statement::Invoke(n(4), 0)).is_none());
    // And it carries: a statement that ends in one narrows nothing either.
    let ends_in_invoke = Statement::Let {
        name: n(9),
        tag: 0,
        ctor: 77,
        fields: vec![n(1)],
        rest: Box::new(Statement::Invoke(n(9), 0)),
    };
    assert!(still_used(&ends_in_invoke).is_none());
}

/// A `switch` arm and an `extern`'s continuation run on the same registers in the same
/// activation, so what they read is read here.
#[test]
fn an_arm_reads_in_the_frame_it_is_in() {
    let go = |to: Name| {
        Statement::Substitute(
            vec![to],
            Box::new(block(vec![to], Statement::Jump(Label(0)))),
        )
    };
    let s = Statement::Switch {
        scrutinee: n(1),
        arms: vec![(0, block(vec![n(5)], go(n(2))))],
        default: Box::new(block(vec![], go(n(3)))),
    };
    let used = still_used(&s).expect("narrowable");
    for name in [1, 2, 3] {
        assert!(used.contains(&n(name)), "{name} is read here");
    }
}

/// A `jump` carries the environment a `substitute` just chose, and that choice is where
/// those names were used.
#[test]
fn a_jump_needs_nothing_the_substitute_did_not_name() {
    let jump = Statement::Substitute(
        vec![n(7), n(8)],
        Box::new(block(vec![n(7), n(8)], Statement::Jump(Label(3)))),
    );
    let used = still_used(&jump).expect("narrowable");
    assert_eq!(used.len(), 2, "exactly what the selection named");
    assert!(used.contains(&n(7)) && used.contains(&n(8)));
    assert!(
        still_used(&Statement::Jump(Label(3))).is_none(),
        "a bare jump carries the environment whole"
    );
}

/// A continuation is built, an argument is computed, and the frame jumps. After the capture,
/// neither the old continuation nor the value it captured is needed.
#[test]
fn a_call_stops_needing_what_its_continuation_took() {
    // new kk capturing [n, k, ev]; extern sub(n) { (m, ...) =>
    //   substitute [m, kk, ev] in jump L }
    let after_capture = || {
        let jump = Statement::Substitute(
            vec![n(20), n(10), n(3)],
            Box::new(block(vec![n(20), n(10), n(3)], Statement::Jump(Label(0)))),
        );
        Statement::Extern {
            op: Extern::Prim(Prim::Sub),
            args: vec![n(1)],
            blocks: vec![block(vec![n(20), n(1), n(2), n(3)], jump)],
        }
    };
    let s = Statement::New {
        name: n(10),
        captures: vec![n(1), n(2), n(3)],
        methods: vec![block(
            vec![n(1), n(2), n(3), n(21)],
            Statement::Invoke(n(2), 0),
        )],
        rest: Box::new(after_capture()),
    };

    // At the `new`, `k` (2) has been captured and is not read again.
    let at_new = still_used(&s).expect("narrowable");
    assert!(at_new.contains(&n(1)), "n is still the subtraction's operand");
    assert!(at_new.contains(&n(2)), "k is captured, which is a read");

    // After it, `k` is gone -- its register is free.
    let rest = still_used(&after_capture()).expect("narrowable");
    assert!(!rest.contains(&n(2)), "k is dead once captured");
    assert!(rest.contains(&n(1)), "n is not, yet");

    // And after the subtraction, `n` is gone too.
    match after_capture() {
        Statement::Extern { blocks, .. } => {
            let at_jump = still_used(&blocks[0].body).expect("narrowable");
            assert!(!at_jump.contains(&n(1)), "n is dead after the subtraction");
            assert!(!at_jump.contains(&n(2)));
            assert_eq!(at_jump.len(), 3, "only what the jump carries");
        }
        _ => unreachable!(),
    }
}
