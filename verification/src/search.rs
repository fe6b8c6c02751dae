//! The search coordinator: compile the text once, materialize and filter the
//! arrangement stream, split it into contiguous near-equal chunks, run the
//! evaluator over every chunk and aggregate the matches.

use vstd::prelude::*;
use crate::equation::{compile_spec, EqModel, Equation, ParseError, SpecTok};
use crate::eval::{spec_eval, EvalResult};
use crate::perms::{
    keep_pred,
    perm_count,
    spec_perm_at,
    valid_perm,
    PermGenerator,
};

verus! {

/// One satisfying assignment: each variable paired with its digit, in the
/// equation's variable order.
pub type Solution = Vec<(char, u8)>;

/// Why a whole solve run failed.
#[derive(Clone, Copy, PartialEq, Eq, Structural, Debug)]
pub enum SolveError {
    /// The equation text did not compile.
    Parse(ParseError),
    /// A chunk hit a malformed-postfix evaluation and aborted; the defect is
    /// structural and would recur for every candidate.
    Concurrency,
}

/// Every arrangement of `k` digits, in stream order.
pub open spec fn all_arrangements(k: int) -> Seq<Seq<u8>> {
    Seq::new(perm_count(k) as nat, |n: int| spec_perm_at(n, k))
}

/// The arrangement stream after the leading-zero filter.
pub open spec fn filtered_arrangements(m: EqModel) -> Seq<Seq<u8>> {
    all_arrangements(m.vars.len() as int).filter(keep_pred(m.firsts))
}

/// The candidates the evaluator accepts.
pub open spec fn match_pred(toks: Seq<SpecTok>) -> spec_fn(Seq<u8>) -> bool {
    |p: Seq<u8>| spec_eval(toks, p) == EvalResult::Match
}

/// Pair each variable with its digit.
pub open spec fn assignment_of(vars: Seq<char>, p: Seq<u8>) -> Seq<(char, u8)> {
    Seq::new(vars.len(), |i: int| (vars[i], p[i]))
}

pub open spec fn asg_fn(vars: Seq<char>) -> spec_fn(Seq<u8>) -> Seq<(char, u8)> {
    |p: Seq<u8>| assignment_of(vars, p)
}

/// Some filtered candidate exposes a malformed postfix sequence.  Because
/// such a failure does not depend on the digits, it recurs for every
/// candidate and aborts the run.
pub open spec fn has_malformed(m: EqModel) -> bool {
    exists|j: int|
        0 <= j < filtered_arrangements(m).len() && spec_eval(
            m.postfix,
            #[trigger] filtered_arrangements(m)[j],
        ) == EvalResult::Malformed
}

/// The full answer of a solve run: the filtered candidates that evaluate to
/// a match, each turned into an assignment.
pub open spec fn spec_solutions(m: EqModel) -> Seq<Seq<(char, u8)>> {
    filtered_arrangements(m).filter(match_pred(m.postfix)).map_values(asg_fn(m.vars))
}

/// Build the variable-to-digit pairs for one matching arrangement.
fn assignment(eq: &Equation, p: &Vec<u8>) -> (r: Solution)
    requires
        p@.len() == eq.vars@.len(),
    ensures
        r@ == assignment_of(eq.vars@, p@),
{
    let mut out: Vec<(char, u8)> = Vec::new();
    let n = eq.vars.len();
    let mut i: usize = 0;
    while i < n
        invariant
            0 <= i <= n,
            n == eq.vars@.len(),
            p@.len() == n,
            out@.len() == i,
            forall|j: int| 0 <= j < i ==> out@[j] == (eq.vars@[j], p@[j]),
        decreases n - i,
    {
        out.push((eq.vars[i], p[i]));
        i += 1;
    }
    proof {
        assert(out@ =~= assignment_of(eq.vars@, p@));
    }
    out
}

/// Evaluate one contiguous chunk `[start, end)` of the filtered arrangement
/// sequence and collect its matches.  A malformed-postfix evaluation aborts
/// the chunk with `SolveError::Concurrency`.
pub fn solve_chunk(eq: &Equation, arrangements: &Vec<Vec<u8>>, start: usize, end: usize) -> (r:
    Result<Vec<Solution>, SolveError>)
    requires
        eq.wf(),
        start <= end <= arrangements@.len(),
        forall|i: int|
            start <= i < end ==> (#[trigger] arrangements@[i])@.len() == eq.vars@.len(),
    ensures
        ({
            let seg = arrangements@.subrange(start as int, end as int).map_values(
                |v: Vec<u8>| v@,
            );
            let toks = eq.postfix_model();
            &&& (r matches Err(e) ==> e == SolveError::Concurrency && exists|j: int|
                0 <= j < seg.len() && spec_eval(toks, #[trigger] seg[j]) == EvalResult::Malformed)
            &&& (r matches Ok(sols) ==> {
                &&& sols@.map_values(|s: Solution| s@) == seg.filter(match_pred(toks)).map_values(
                    asg_fn(eq.vars@),
                )
                &&& forall|j: int|
                    0 <= j < seg.len() ==> spec_eval(toks, #[trigger] seg[j])
                        != EvalResult::Malformed
            })
        }),
{
    let ghost toks = eq.postfix_model();
    let mut sols: Vec<Solution> = Vec::new();
    let mut idx = start;
    proof {
        assert(arrangements@.subrange(start as int, start as int).map_values(|v: Vec<u8>| v@)
            =~= Seq::<Seq<u8>>::empty());
        assert(Seq::<Seq<u8>>::empty().filter(match_pred(toks)) =~= Seq::<Seq<u8>>::empty()) by {
            reveal(Seq::filter);
        }
        assert(sols@.map_values(|s: Solution| s@) =~= Seq::<Seq<(char, u8)>>::empty());
    }
    while idx < end
        invariant
            start <= idx <= end <= arrangements@.len(),
            eq.wf(),
            toks == eq.postfix_model(),
            forall|i: int|
                start <= i < end ==> (#[trigger] arrangements@[i])@.len() == eq.vars@.len(),
            ({
                let seg = arrangements@.subrange(start as int, idx as int).map_values(
                    |v: Vec<u8>| v@,
                );
                &&& sols@.map_values(|s: Solution| s@) == seg.filter(match_pred(toks)).map_values(
                    asg_fn(eq.vars@),
                )
                &&& forall|j: int|
                    0 <= j < seg.len() ==> spec_eval(toks, #[trigger] seg[j])
                        != EvalResult::Malformed
            }),
        decreases end - idx,
    {
        let ghost seg = arrangements@.subrange(start as int, idx as int).map_values(
            |v: Vec<u8>| v@,
        );
        let p = &arrangements[idx];
        let res = eq.eval(p);
        proof {
            assert(arrangements@.subrange(start as int, idx as int + 1) =~= arrangements@.subrange(
                start as int,
                idx as int,
            ).push(arrangements@[idx as int]));
            assert(arrangements@.subrange(start as int, idx as int + 1).map_values(|v: Vec<u8>| v@)
                =~= seg.push(p@));
            seg.lemma_filter_push(p@, match_pred(toks));
        }
        if res == EvalResult::Malformed {
            proof {
                let seg2 = arrangements@.subrange(start as int, end as int).map_values(
                    |v: Vec<u8>| v@,
                );
                assert(seg2[idx - start] == p@);
            }
            return Err(SolveError::Concurrency);
        }
        if res == EvalResult::Match {
            let a = assignment(eq, p);
            sols.push(a);
            proof {
                let f = |s: Solution| s@;
                assert(sols@.map_values(f) =~= sols@.drop_last().map_values(f).push(a@));
                assert(seg.push(p@).filter(match_pred(toks)).map_values(asg_fn(eq.vars@))
                    =~= seg.filter(match_pred(toks)).map_values(asg_fn(eq.vars@)).push(
                    assignment_of(eq.vars@, p@),
                ));
            }
        }
        idx += 1;
    }
    Ok(sols)
}

/// Clamped worker count: at least one, and no more chunks than items (one
/// chunk when there is nothing to split).
pub open spec fn clamped_workers(total: int, workers: int) -> int {
    if workers < 1 {
        1
    } else if workers > total {
        if total == 0 {
            1
        } else {
            total
        }
    } else {
        workers
    }
}

/// Split `total` items into clamped `workers` contiguous chunks: every chunk
/// but the last has size `total / workers`, and the remainder folds into the
/// last chunk.
pub fn chunk_bounds(total: usize, workers: usize) -> (r: Vec<(usize, usize)>)
    ensures
        r@.len() == clamped_workers(total as int, workers as int),
        (r@[0]).0 == 0,
        (r@[r@.len() - 1]).1 == total,
        forall|i: int| 0 <= i < r@.len() ==> (#[trigger] r@[i]).0 <= r@[i].1 <= total,
        forall|i: int| 0 <= i < r@.len() - 1 ==> (#[trigger] r@[i]).1 == r@[i + 1].0,
        forall|i: int|
            0 <= i < r@.len() - 1 ==> (#[trigger] r@[i]).1 - r@[i].0 == total as int / r@.len() as int,
{
    let mut w = workers;
    if w == 0 {
        w = 1;
    }
    if w > total {
        w = if total == 0 {
            1
        } else {
            total
        };
    }
    let size = total / w;
    proof {
        vstd::arithmetic::div_mod::lemma_fundamental_div_mod(total as int, w as int);
        vstd::arithmetic::div_mod::lemma_mod_division_less_than_divisor(total as int, w as int);
    }
    let mut bounds: Vec<(usize, usize)> = Vec::new();
    let mut start: usize = 0;
    let mut i: usize = 0;
    while i < w - 1
        invariant
            0 <= i <= w - 1,
            w >= 1,
            w == clamped_workers(total as int, workers as int),
            size == total as int / w as int,
            total as int == w as int * size as int + total as int % w as int,
            0 <= total as int % w as int,
            bounds@.len() == i,
            start == i as int * size as int,
            start <= total,
            forall|j: int|
                0 <= j < i ==> #[trigger] bounds@[j] == (
                    (j * size as int) as usize,
                    ((j + 1) * size as int) as usize,
                ),
        decreases w - 1 - i,
    {
        proof {
            assert((i as int + 1) * size as int <= w as int * size as int) by (nonlinear_arith)
                requires
                    i as int + 1 <= w as int,
                    size as int >= 0,
            ;
            assert((i as int + 1) * size as int == i as int * size as int + size as int)
                by (nonlinear_arith);
        }
        bounds.push((start, start + size));
        start = start + size;
        i += 1;
    }
    proof {
        assert(i as int * size as int <= w as int * size as int) by (nonlinear_arith)
            requires
                i as int <= w as int,
                size as int >= 0,
        ;
    }
    bounds.push((start, total));
    proof {
        assert forall|j: int| 0 <= j < bounds@.len() - 1 implies (#[trigger] bounds@[j]).1
            == bounds@[j + 1].0 by {
            assert((j + 1) * size as int == j * size as int + size as int) by (nonlinear_arith);
            if j + 1 < bounds@.len() - 1 {
            }
        }
        assert forall|j: int| 0 <= j < bounds@.len() implies (#[trigger] bounds@[j]).0
            <= bounds@[j].1 <= total by {
            if j < bounds@.len() - 1 {
                assert((j + 1) * size as int <= w as int * size as int) by (nonlinear_arith)
                    requires
                        j + 1 <= w as int,
                        size as int >= 0,
                ;
                assert(j * size as int <= (j + 1) * size as int) by (nonlinear_arith)
                    requires
                        size as int >= 0,
                ;
            }
        }
        assert forall|j: int| 0 <= j < bounds@.len() - 1 implies (#[trigger] bounds@[j]).1
            - bounds@[j].0 == total as int / bounds@.len() as int by {
            assert(bounds@[j] == ((j * size as int) as usize, ((j + 1) * size as int) as usize));
            assert(0 <= j * size as int) by (nonlinear_arith)
                requires
                    j >= 0,
                    size as int >= 0,
            ;
            assert((j + 1) * size as int <= w as int * size as int) by (nonlinear_arith)
                requires
                    j + 1 <= w as int,
                    size as int >= 0,
            ;
            assert((j + 1) * size as int == j * size as int + size as int) by (nonlinear_arith);
            assert(w as int * size as int <= total as int);
        }
    }
    bounds
}

/// Solve the whole puzzle: compile the text once, materialize the filtered
/// arrangement sequence, split it into `thread_count` contiguous chunks and
/// aggregate every chunk's matches.  The result is a function of the two
/// arguments alone, so identical calls always return the identical solution
/// sequence.
pub fn solve_problem(input: String, thread_count: usize) -> (r: Result<Vec<Solution>, SolveError>)
    ensures
        (match compile_spec(input@) {
            Err(e) => r == Err::<Vec<Solution>, SolveError>(SolveError::Parse(e)),
            Ok(m) => if has_malformed(m) {
                r == Err::<Vec<Solution>, SolveError>(SolveError::Concurrency)
            } else {
                (r matches Ok(sols) && sols@.map_values(|s: Solution| s@) == spec_solutions(m))
            },
        }),
{
    let eq = match Equation::new(input) {
        Ok(e) => e,
        Err(pe) => {
            return Err(SolveError::Parse(pe));
        },
    };
    let ghost m = compile_spec(input@)->Ok_0;
    let k = eq.vars.len();
    let mut gen = PermGenerator::new(k);
    let mut filtered: Vec<Vec<u8>> = Vec::new();
    proof {
        assert(all_arrangements(k as int).take(0) =~= Seq::<Seq<u8>>::empty());
        assert(Seq::<Seq<u8>>::empty().filter(keep_pred(eq.first_vars_index@)) =~= Seq::<
            Seq<u8>,
        >::empty()) by {
            reveal(Seq::filter);
        }
        assert(filtered@.map_values(|v: Vec<u8>| v@) =~= Seq::<Seq<u8>>::empty());
    }
    loop
        invariant_except_break
            gen.wf(),
            gen.letter_count == k,
            k == eq.vars@.len() <= 10,
            eq.wf(),
            eq.vars@ == m.vars,
            eq.first_vars_index@ == m.firsts,
            eq.postfix_model() == m.postfix,
            filtered@.map_values(|v: Vec<u8>| v@) == all_arrangements(k as int).take(
                gen.next_index as int,
            ).filter(keep_pred(eq.first_vars_index@)),
            forall|i: int| 0 <= i < filtered@.len() ==> (#[trigger] filtered@[i])@.len() == k,
        ensures
            k == eq.vars@.len() <= 10,
            eq.wf(),
            filtered@.map_values(|v: Vec<u8>| v@) == filtered_arrangements(m),
            forall|i: int| 0 <= i < filtered@.len() ==> (#[trigger] filtered@[i])@.len() == k,
        decreases gen.total - gen.next_index,
    {
        let ghost n0 = gen.next_index as int;
        let nxt = gen.next();
        match nxt {
            None => {
                proof {
                    let all = all_arrangements(k as int);
                    crate::perms::lemma_fall_pos(10, k as int);
                    assert(all.take(gen.next_index as int) =~= all);
                    assert(filtered_arrangements(m) == all.filter(keep_pred(eq.first_vars_index@)));
                }
                break ;
            },
            Some(p) => {
                proof {
                    crate::perms::lemma_digit_pool_distinct();
                    crate::perms::lemma_sel_shape(crate::perms::digit_pool(), n0, k as int);
                }
                let keep = valid_perm(&p, &eq.first_vars_index);
                let ghost prev_map = filtered@.map_values(|v: Vec<u8>| v@);
                if keep {
                    filtered.push(p);
                }
                proof {
                    let all = all_arrangements(k as int);
                    let pred = keep_pred(eq.first_vars_index@);
                    assert(all[n0] == spec_perm_at(n0, k as int));
                    assert(all.take(n0 + 1) =~= all.take(n0).push(all[n0]));
                    all.take(n0).lemma_filter_push(all[n0], pred);
                    if keep {
                        assert(filtered@.map_values(|v: Vec<u8>| v@) =~= prev_map.push(
                            spec_perm_at(n0, k as int),
                        ));
                    }
                }
            },
        }
    }
    let total = filtered.len();
    let bounds = chunk_bounds(total, thread_count);
    let ghost fseq = filtered@.map_values(|v: Vec<u8>| v@);
    let mut sols: Vec<Solution> = Vec::new();
    let mut covered: usize = 0;
    let mut ci: usize = 0;
    proof {
        assert(fseq.take(0) =~= Seq::<Seq<u8>>::empty());
        assert(Seq::<Seq<u8>>::empty().filter(match_pred(m.postfix)) =~= Seq::<Seq<u8>>::empty())
            by {
            reveal(Seq::filter);
        }
        assert(Seq::<Seq<u8>>::empty().map_values(asg_fn(m.vars)) =~= Seq::<
            Seq<(char, u8)>,
        >::empty());
        assert(sols@.map_values(|s: Solution| s@) =~= Seq::<Seq<(char, u8)>>::empty());
    }
    while ci < bounds.len()
        invariant
            0 <= ci <= bounds@.len(),
            bounds@.len() >= 1,
            (bounds@[0]).0 == 0,
            (bounds@[bounds@.len() - 1]).1 == total,
            forall|x: int|
                0 <= x < bounds@.len() ==> (#[trigger] bounds@[x]).0 <= bounds@[x].1 <= total,
            forall|x: int|
                0 <= x < bounds@.len() - 1 ==> (#[trigger] bounds@[x]).1 == bounds@[x + 1].0,
            total == filtered@.len(),
            compile_spec(input@) == Ok::<EqModel, ParseError>(m),
            eq.wf(),
            k == eq.vars@.len(),
            eq.vars@ == m.vars,
            eq.first_vars_index@ == m.firsts,
            eq.postfix_model() == m.postfix,
            fseq == filtered@.map_values(|v: Vec<u8>| v@),
            fseq == filtered_arrangements(m),
            forall|i: int| 0 <= i < filtered@.len() ==> (#[trigger] filtered@[i])@.len() == k,
            covered as int == (if ci == 0 {
                0int
            } else {
                (bounds@[ci - 1]).1 as int
            }),
            covered <= total,
            sols@.map_values(|s: Solution| s@) == fseq.take(covered as int).filter(
                match_pred(m.postfix),
            ).map_values(asg_fn(m.vars)),
            forall|j: int|
                0 <= j < covered ==> spec_eval(m.postfix, #[trigger] fseq[j])
                    != EvalResult::Malformed,
        decreases bounds@.len() - ci,
    {
        let pair = bounds[ci];
        let s = pair.0;
        let e = pair.1;
        proof {
            if ci > 0 {
                assert((bounds@[ci - 1]).1 == (bounds@[ci as int]).0);
            }
            assert(s == covered);
            assert forall|i: int| s <= i < e implies (#[trigger] filtered@[i])@.len()
                == eq.vars@.len() by {
            }
        }
        let cr = solve_chunk(&eq, &filtered, s, e);
        let ghost seg = filtered@.subrange(s as int, e as int).map_values(|v: Vec<u8>| v@);
        proof {
            assert forall|j: int| 0 <= j < seg.len() implies seg[j] == fseq[s + j] by {
                assert(seg[j] == filtered@.subrange(s as int, e as int)[j]@);
                assert(filtered@.subrange(s as int, e as int)[j] == filtered@[s + j]);
            }
        }
        match cr {
            Err(_) => {
                proof {
                    let j = choose|j: int|
                        0 <= j < seg.len() && spec_eval(eq.postfix_model(), #[trigger] seg[j])
                            == EvalResult::Malformed;
                    assert(spec_eval(m.postfix, fseq[s + j]) == EvalResult::Malformed);
                    assert(has_malformed(m));
                }
                return Err(SolveError::Concurrency);
            },
            Ok(cs) => {
                let mut cs = cs;
                let ghost cs_map = cs@.map_values(|s2: Solution| s2@);
                let ghost prev_sols = sols@.map_values(|s2: Solution| s2@);
                sols.append(&mut cs);
                proof {
                    assert(fseq.take(e as int) =~= fseq.take(covered as int) + seg);
                    Seq::filter_distributes_over_add(
                        fseq.take(covered as int),
                        seg,
                        match_pred(m.postfix),
                    );
                    assert((fseq.take(covered as int).filter(match_pred(m.postfix)) + seg.filter(
                        match_pred(m.postfix),
                    )).map_values(asg_fn(m.vars)) =~= fseq.take(covered as int).filter(
                        match_pred(m.postfix),
                    ).map_values(asg_fn(m.vars)) + seg.filter(match_pred(m.postfix)).map_values(
                        asg_fn(m.vars),
                    ));
                    assert(sols@.map_values(|s2: Solution| s2@) =~= prev_sols + cs_map);
                    assert forall|j: int| 0 <= j < e implies spec_eval(
                        m.postfix,
                        #[trigger] fseq[j],
                    ) != EvalResult::Malformed by {
                        if j >= covered {
                            assert(seg[j - s] == fseq[j]);
                        }
                    }
                }
                covered = e;
            },
        }
        ci += 1;
    }
    proof {
        assert(covered == total);
        assert(fseq.take(total as int) =~= fseq);
        assert(!has_malformed(m));
    }
    Ok(sols)
}

/// Chunks that begin at zero, abut one another and end at the total: their
/// starts never decrease.
proof fn lemma_bounds_mono(bounds: Seq<(usize, usize)>, i: int, j: int)
    requires
        forall|x: int| 0 <= x < bounds.len() ==> (#[trigger] bounds[x]).0 <= bounds[x].1,
        forall|x: int| 0 <= x < bounds.len() - 1 ==> (#[trigger] bounds[x]).1 == bounds[x + 1].0,
        0 <= i < j < bounds.len(),
    ensures
        bounds[i].1 <= bounds[j].0,
    decreases j - i,
{
    if j == i + 1 {
    } else {
        lemma_bounds_mono(bounds, i, j - 1);
    }
}

/// Law of the partition: contiguous chunks that begin at 0, end at the
/// total, and abut one another cover every index exactly once — each index
/// falls in one chunk and in no two chunks.
pub proof fn lemma_chunks_cover(bounds: Seq<(usize, usize)>, total: int, idx: int)
    requires
        bounds.len() >= 1,
        (bounds[0]).0 == 0,
        (bounds[bounds.len() - 1]).1 == total,
        forall|x: int| 0 <= x < bounds.len() ==> (#[trigger] bounds[x]).0 <= bounds[x].1,
        forall|x: int| 0 <= x < bounds.len() - 1 ==> (#[trigger] bounds[x]).1 == bounds[x + 1].0,
        0 <= idx < total,
    ensures
        exists|i: int| 0 <= i < bounds.len() && (#[trigger] bounds[i]).0 <= idx < bounds[i].1,
        forall|i: int, j: int|
            0 <= i < j < bounds.len() ==> !((#[trigger] bounds[i]).0 <= idx < bounds[i].1 && (
            #[trigger] bounds[j]).0 <= idx < bounds[j].1),
    decreases bounds.len(),
{
    let last = bounds.len() - 1;
    if idx >= bounds[last].0 {
        assert(bounds[last].0 <= idx < bounds[last].1);
    } else {
        let pre = bounds.drop_last();
        assert(bounds.len() >= 2) by {
            if bounds.len() == 1 {
                assert(bounds[0].0 == 0 && idx < bounds[0].0);
            }
        }
        assert(forall|x: int|
            0 <= x < pre.len() ==> #[trigger] pre[x] == bounds[x]);
        assert((pre[pre.len() - 1]).1 == bounds[last].0);
        lemma_chunks_cover(pre, bounds[last].0 as int, idx);
        let w = choose|i: int| 0 <= i < pre.len() && (#[trigger] pre[i]).0 <= idx < pre[i].1;
        assert(bounds[w].0 <= idx < bounds[w].1);
    }
    assert forall|i: int, j: int| 0 <= i < j < bounds.len() implies !((#[trigger] bounds[i]).0
        <= idx < bounds[i].1 && (#[trigger] bounds[j]).0 <= idx < bounds[j].1) by {
        if bounds[i].0 <= idx < bounds[i].1 && bounds[j].0 <= idx < bounds[j].1 {
            lemma_bounds_mono(bounds, i, j);
        }
    }
}

} // verus!
