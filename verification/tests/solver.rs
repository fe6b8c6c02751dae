use cryptarithmetic::chunk_bounds;
use cryptarithmetic::perm_at;
use cryptarithmetic::solve_problem;
use cryptarithmetic::valid_perm;
use cryptarithmetic::Equation;
use cryptarithmetic::EvalResult;
use cryptarithmetic::ParseError;
use cryptarithmetic::PermGenerator;
use cryptarithmetic::SolveError;

fn digit_of(sol: &[(char, u8)], c: char) -> u8 {
    for (v, d) in sol {
        if *v == c {
            return *d;
        }
    }
    panic!("variable not found");
}

#[test]
fn send_more_money_has_one_solution() {
    let r = solve_problem("SEND+MORE=MONEY".to_string(), 4).unwrap();
    assert_eq!(r.len(), 1);
    let s = &r[0];
    assert_eq!(digit_of(s, 'O'), 0);
    assert_eq!(digit_of(s, 'M'), 1);
    assert_eq!(digit_of(s, 'Y'), 2);
    assert_eq!(digit_of(s, 'E'), 5);
    assert_eq!(digit_of(s, 'N'), 6);
    assert_eq!(digit_of(s, 'D'), 7);
    assert_eq!(digit_of(s, 'R'), 8);
    assert_eq!(digit_of(s, 'S'), 9);
}

#[test]
fn a_plus_a_b_has_four_solutions() {
    let r = solve_problem("A+A=B".to_string(), 4).unwrap();
    assert_eq!(r.len(), 4);
    for s in &r {
        let a = digit_of(s, 'A');
        let b = digit_of(s, 'B');
        assert_eq!(b, 2 * a);
        assert!(1 <= a && a <= 4);
    }
}

#[test]
fn a_plus_a_a_has_no_solution() {
    let r = solve_problem("A+A=A".to_string(), 4).unwrap();
    assert!(r.is_empty());
}

#[test]
fn eleven_letters_fail_to_parse() {
    let r = solve_problem("ABCDEFGHIJK".to_string(), 4);
    assert_eq!(r, Err(SolveError::Parse(ParseError::TooManyVariables)));
}

#[test]
fn unmatched_open_paren_fails_to_parse() {
    let r = solve_problem("(A+B=C".to_string(), 4);
    assert_eq!(r, Err(SolveError::Parse(ParseError::UnmatchedOpen)));
}

#[test]
fn unmatched_close_paren_fails_to_parse() {
    let r = solve_problem(")A+B".to_string(), 4);
    assert_eq!(r, Err(SolveError::Parse(ParseError::UnmatchedClose)));
}

#[test]
fn empty_input_fails_to_parse() {
    assert_eq!(
        solve_problem(String::new(), 4),
        Err(SolveError::Parse(ParseError::EmptyInput))
    );
    assert_eq!(
        solve_problem(" % 12 ".to_string(), 4),
        Err(SolveError::Parse(ParseError::EmptyInput))
    );
}

#[test]
fn solve_is_deterministic_across_runs() {
    let a = solve_problem("A+A=B".to_string(), 4).unwrap();
    let b = solve_problem("A+A=B".to_string(), 4).unwrap();
    assert_eq!(a, b);
    let c = solve_problem("SEND+MORE=MONEY".to_string(), 2).unwrap();
    let d = solve_problem("SEND+MORE=MONEY".to_string(), 7).unwrap();
    assert_eq!(c, d);
}

#[test]
fn permutation_stream_for_two_letters() {
    let mut gen = PermGenerator::new(2);
    let mut all: Vec<Vec<u8>> = Vec::new();
    while let Some(p) = gen.next() {
        all.push(p);
    }
    assert_eq!(all.len(), 90);
    for p in &all {
        assert_eq!(p.len(), 2);
        assert_ne!(p[0], p[1]);
        assert!(p[0] < 10 && p[1] < 10);
    }
    for i in 0..all.len() {
        for j in 0..i {
            assert_ne!(all[i], all[j]);
        }
    }
}

#[test]
fn permutation_stream_for_one_letter() {
    let mut gen = PermGenerator::new(1);
    let mut seen = [false; 10];
    let mut count = 0;
    while let Some(p) = gen.next() {
        assert_eq!(p.len(), 1);
        assert!(!seen[p[0] as usize]);
        seen[p[0] as usize] = true;
        count += 1;
    }
    assert_eq!(count, 10);
}

#[test]
fn perm_at_decodes_distinct_digits() {
    for n in 0..720 {
        let p = perm_at(n, 3);
        assert_eq!(p.len(), 3);
        assert_ne!(p[0], p[1]);
        assert_ne!(p[0], p[2]);
        assert_ne!(p[1], p[2]);
    }
}

#[test]
fn filter_count_matches_total_minus_rejected() {
    let firsts: Vec<usize> = vec![0];
    let mut gen = PermGenerator::new(2);
    let mut kept = 0;
    let mut rejected = 0;
    let mut total = 0;
    while let Some(p) = gen.next() {
        total += 1;
        if valid_perm(&p, &firsts) {
            kept += 1;
        } else {
            rejected += 1;
        }
    }
    assert_eq!(total, 90);
    assert_eq!(rejected, 9);
    assert_eq!(kept, total - rejected);
}

#[test]
fn leading_zero_arrangements_are_rejected() {
    let firsts: Vec<usize> = vec![0, 2];
    assert!(valid_perm(&vec![1, 0, 2], &firsts));
    assert!(!valid_perm(&vec![0, 1, 2], &firsts));
    assert!(!valid_perm(&vec![1, 2, 0], &firsts));
    assert!(valid_perm(&vec![3, 4, 5], &vec![]));
}

#[test]
fn chunks_cover_every_index_exactly_once() {
    for total in 0..40usize {
        for workers in 0..8usize {
            let bounds = chunk_bounds(total, workers);
            assert!(!bounds.is_empty());
            assert_eq!(bounds[0].0, 0);
            assert_eq!(bounds[bounds.len() - 1].1, total);
            for idx in 0..total {
                let mut owners = 0;
                for (s, e) in &bounds {
                    if *s <= idx && idx < *e {
                        owners += 1;
                    }
                }
                assert_eq!(owners, 1);
            }
        }
    }
}

#[test]
fn chunk_bounds_clamps_worker_count() {
    assert_eq!(chunk_bounds(10, 3), vec![(0, 3), (3, 6), (6, 10)]);
    assert_eq!(chunk_bounds(5, 0), vec![(0, 5)]);
    assert_eq!(chunk_bounds(3, 7).len(), 3);
    assert_eq!(chunk_bounds(0, 4), vec![(0, 0)]);
}

#[test]
fn compiler_orders_variables_by_first_occurrence() {
    let eq = Equation::new("SEND+MORE=MONEY".to_string()).unwrap();
    assert_eq!(eq.vars, vec!['S', 'E', 'N', 'D', 'M', 'O', 'R', 'Y']);
    assert_eq!(eq.first_vars_index, vec![0, 4]);
}

#[test]
fn single_letter_word_is_leading() {
    let eq = Equation::new("A+A=B".to_string()).unwrap();
    assert_eq!(eq.vars, vec!['A', 'B']);
    assert_eq!(eq.first_vars_index, vec![0, 1]);
}

#[test]
fn evaluator_reports_division_by_zero() {
    let eq = Equation::new("A/(B-C)=D".to_string()).unwrap();
    assert_eq!(eq.eval(&vec![6, 2, 2, 3]), EvalResult::DivByZero);
}

#[test]
fn evaluator_reports_negative_intermediate() {
    let eq = Equation::new("A-B=C".to_string()).unwrap();
    assert_eq!(eq.eval(&vec![1, 5, 0]), EvalResult::Negative);
}

#[test]
fn evaluator_reports_overflow() {
    let eq = Equation::new("AAAAAAAAAAAAAAAAAAAAAAAAA=B".to_string()).unwrap();
    assert_eq!(eq.eval(&vec![9, 1]), EvalResult::Overflow);
}

#[test]
fn evaluator_reports_malformed_postfix() {
    let eq = Equation::new("A B".to_string()).unwrap();
    assert_eq!(eq.eval(&vec![1, 2]), EvalResult::Malformed);
}

#[test]
fn malformed_equation_aborts_the_run() {
    let r = solve_problem("+A".to_string(), 2);
    assert_eq!(r, Err(SolveError::Concurrency));
}

#[test]
fn parentheses_override_precedence() {
    let grouped = Equation::new("(A+B)*C=D".to_string()).unwrap();
    assert_eq!(grouped.eval(&vec![1, 2, 3, 9]), EvalResult::Match);
    let plain = Equation::new("A+B*C=D".to_string()).unwrap();
    assert_eq!(plain.eval(&vec![1, 2, 3, 9]), EvalResult::NoMatch);
    assert_eq!(plain.eval(&vec![1, 2, 3, 7]), EvalResult::Match);
}

#[test]
fn division_truncates_toward_zero() {
    let eq = Equation::new("A/B=C".to_string()).unwrap();
    assert_eq!(eq.eval(&vec![7, 2, 3]), EvalResult::Match);
    assert_eq!(eq.eval(&vec![7, 2, 4]), EvalResult::NoMatch);
}
