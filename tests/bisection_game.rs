use zkopml::bisection::{answer, midpoint, next_outcome, Bisection, BisectionStep, Outcome};

fn ceil_log2(n: usize) -> usize {
    let mut d = 0;
    while (1usize << d) < n {
        d += 1;
    }
    d
}

/// Runs the challenger against answers from a single disagreement at `k`;
/// returns the proved operator and the number of narrowing steps.
fn run(n: usize, k: usize) -> (BisectionStep, usize) {
    let mut b = Bisection::new(n);
    let mut mid = b.mid();
    let mut steps = 0;
    loop {
        let step = b.on_response(mid <= k, mid < k);
        match step {
            BisectionStep::Propose(m) => {
                steps += 1;
                mid = m;
            },
            other => return (other, steps),
        }
    }
}

#[test]
fn converges_on_every_index() {
    for n in 1..70usize {
        for k in 0..n {
            let (step, steps) = run(n, k);
            assert_eq!(step, BisectionStep::Prove(k));
            assert!(steps <= ceil_log2(n), "n={} k={} steps={}", n, k, steps);
        }
    }
}

#[test]
fn first_proposal_is_middle() {
    let b = Bisection::new(5);
    assert_eq!(b.mid(), 2);
    let b = Bisection::new(4);
    assert_eq!(b.mid(), 1);
    assert_eq!(midpoint(3, 3), 3);
    assert_eq!(midpoint(usize::MAX - 1, usize::MAX), usize::MAX - 1);
}

#[test]
fn one_operator_divergence_at_two_of_five() {
    let (step, steps) = run(5, 2);
    assert_eq!(step, BisectionStep::Prove(2));
    assert_eq!(steps, 0);
}

#[test]
fn honest_against_honest_concedes() {
    let mut b = Bisection::new(4);
    let mut proposals = vec![b.mid()];
    loop {
        match b.on_response(true, true) {
            BisectionStep::Propose(m) => proposals.push(m),
            BisectionStep::Concede => break,
            BisectionStep::Prove(_) => panic!("no disagreement to prove"),
        }
    }
    assert_eq!(proposals, vec![1, 2, 3]);
}

#[test]
fn mismatched_input_moves_left() {
    assert_eq!(next_outcome(0, 9, false, true), Outcome::Narrowed { low: 0, high: 3 });
    assert_eq!(next_outcome(0, 9, false, false), Outcome::Narrowed { low: 0, high: 3 });
    assert_eq!(next_outcome(0, 9, true, true), Outcome::Narrowed { low: 5, high: 9 });
    assert_eq!(next_outcome(0, 9, true, false), Outcome::Found);
    assert_eq!(next_outcome(4, 4, false, false), Outcome::Exhausted);
    assert_eq!(next_outcome(4, 4, true, true), Outcome::Exhausted);
}

#[test]
fn responder_answers_from_own_trace() {
    let trace = vec![(vec![1u8], vec![2u8]), (vec![2u8], vec![3u8])];
    assert_eq!(answer(&trace, 1, &vec![2], &vec![3]), (true, true));
    assert_eq!(answer(&trace, 1, &vec![2], &vec![4]), (true, false));
    assert_eq!(answer(&trace, 0, &vec![9], &vec![2]), (false, true));
    let b = Bisection::new(2);
    assert_eq!(b.proposal(&trace), (vec![1u8], vec![2u8]));
}
