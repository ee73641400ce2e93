use std::time::{Duration, Instant};

use expr_minimizer::arena::{Interner, Op};
use expr_minimizer::complex::Complex64;
use expr_minimizer::fingerprint::sample_bytes;
use expr_minimizer::parser::parse;
use expr_minimizer::plan::{run_plan, Step};
use expr_minimizer::render::to_expr_string;
use expr_minimizer::stochastic::{
    assess, breed, capped_op_count, choose_operator, crossover, fingerprint_distance, fitness,
    get_score, judge, judge_all, mutate, mutate_with, op_count, path_for, random_path, rank,
    rebuild, search, select, subtree_nodes, Operator, SearchConfig,
};

type Pair = num_complex::Complex64;

fn c(re: f64, im: f64) -> Complex64 {
    Complex64::new(re.to_bits(), im.to_bits())
}

fn lift(z: Complex64) -> Pair {
    Pair::new(f64::from_bits(z.re), f64::from_bits(z.im))
}

fn eval(plan: &Vec<Step>, x: Complex64) -> Complex64 {
    let z = run_plan(plan, x, &lift, &|a: &Pair, b: &Pair| a.exp() - b.ln());
    c(z.re, z.im)
}

#[test]
fn search_runs_and_terminates_within_budget() {
    let mut interner = Interner::new();
    let x = interner.intern_var();
    let k = interner.intern_const(c(1.0, 0.0));
    let seed = interner.intern_prim(x, k);
    let target_bytes = sample_bytes(&interner, seed, &eval);

    let config = SearchConfig { population_size: 20, elite_count: 4, ..Default::default() };
    let start = Instant::now();
    let result = search(&mut interner, seed, &target_bytes, &config, &eval, &|| {
        start.elapsed() < Duration::from_millis(300)
    });
    assert!(result.exact_match_found);
    assert_eq!(sample_bytes(&interner, result.best, &eval), target_bytes);
}

#[test]
fn op_count_matches_tree_expansion() {
    let mut interner = Interner::new();
    let x = interner.intern_var();
    let k = interner.intern_const(c(2.0, 0.0));
    let inner = interner.intern_prim(x, k);
    let outer = interner.intern_prim(inner, inner);
    assert_eq!(op_count(&interner, outer), 7);
}

#[test]
fn op_count_stops_at_the_largest_number() {
    let mut it = Interner::new();
    let mut top = it.intern_var();
    for _ in 0..10 {
        top = it.intern_prim(top, top);
    }
    assert_eq!(op_count(&it, top), 2047);
    for _ in 0..60 {
        top = it.intern_prim(top, top);
    }
    assert_eq!(capped_op_count(&it, top), u64::MAX);
}

#[test]
fn distance_counts_the_places_that_differ() {
    assert_eq!(fingerprint_distance(&vec![1, 2, 3], &vec![1, 2, 3]), 0);
    assert_eq!(fingerprint_distance(&vec![1, 2, 3], &vec![3, 2, 1]), 2);
    assert_eq!(fingerprint_distance(&vec![1, 2, 3], &vec![9]), 1);
    assert_eq!(fingerprint_distance(&vec![], &vec![9]), 0);
}

#[test]
fn fitness_weighs_distance_and_cost() {
    let lambda = 0.05f64;
    let r = f64::from_bits(get_score(7, 3, lambda.to_bits()));
    assert_eq!(r, -7.0 - lambda * 3.0);
    let mut it = Interner::new();
    let seed = parse(&mut it, "f(x, 1)").unwrap();
    let target = sample_bytes(&it, seed, &eval);
    assert_eq!(judge(&it, seed, &target, lambda.to_bits(), &eval).0, 0);
    let own = f64::from_bits(fitness(&it, seed, &target, lambda.to_bits(), &eval));
    assert_eq!(own, 0.0 - lambda * 3.0);
}

#[test]
fn all_candidates_are_judged_in_order() {
    let mut it = Interner::new();
    let seed = parse(&mut it, "f(x, 1)").unwrap();
    let target = sample_bytes(&it, seed, &eval);
    let lambda = 0.05f64.to_bits();
    let population = vec![seed, it.node(seed).a, it.node(seed).b, seed];
    let judged = judge_all(&it, &population, &target, lambda, &eval);
    for (k, id) in population.iter().enumerate() {
        assert_eq!(judged[k], judge(&it, *id, &target, lambda, &eval));
    }
    assert_eq!(judged[0].0, 0);
    assert_ne!(judged[1].0, 0);
}

#[test]
fn ranking_is_stable_and_starts_with_the_fittest() {
    let fits: Vec<u64> = [1.0, 3.0, -2.0, 3.0, 0.0].iter().map(|x: &f64| x.to_bits()).collect();
    assert_eq!(rank(&fits), vec![1, 3, 0, 4, 2]);
    assert_eq!(rank(&vec![f64::NAN.to_bits(); 3]), vec![0, 1, 2]);
    assert_eq!(rank(&vec![0.0f64.to_bits(), (-0.0f64).to_bits()]), vec![0, 1]);
}

#[test]
fn fitter_candidates_become_the_best() {
    let (low, high) = ((-3.0f64).to_bits(), (-1.0f64).to_bits());
    assert_eq!(assess(5, low, 9, high), (9, high));
    assert_eq!(assess(5, high, 9, low), (5, high));
    assert_eq!(assess(5, high, 9, high), (5, high));
}

#[test]
fn fittest_exact_candidate_ends_the_search() {
    let fit = |x: f64| x.to_bits();
    let population = vec![10, 11, 12, 13];
    let judged = vec![(0, fit(-5.0)), (1, fit(-1.0)), (0, fit(-4.0)), (0, fit(-4.0))];
    let costs = vec![50, 1, 40, 40];
    let chosen = select(&population, &judged, &costs, u64::MAX, 7, fit(-0.5), 2);
    assert_eq!((chosen.best, chosen.best_fitness, chosen.over), (12, fit(-4.0), true));
    let bounded = vec![30, 1, 40, 35];
    let chosen = select(&population, &judged, &bounded, 35, 7, fit(-0.5), 2);
    assert_eq!((chosen.best, chosen.over), (13, true));
    let chosen = select(&population, &judged, &costs, 39, 7, fit(-0.5), 2);
    assert_eq!((chosen.best, chosen.best_fitness, chosen.over), (7, fit(-0.5), false));
}

#[test]
fn exact_seed_is_found_at_once_and_not_made_dearer() {
    let mut it = Interner::new();
    let seed = parse(&mut it, "f(f(f(x, 1), f(x, 2)), f(f(3, x), f(x, 1)))").unwrap();
    let target = sample_bytes(&it, seed, &eval);
    for lambda in [0.05f64, 10.0] {
        let config = SearchConfig { lambda: lambda.to_bits(), ..Default::default() };
        let own = f64::from_bits(fitness(&it, seed, &target, config.lambda, &eval));
        let r = search(&mut it, seed, &target, &config, &eval, &|| true);
        assert!(r.exact_match_found);
        assert_eq!(r.generations_run, 0);
        assert!(op_count(&it, r.best) <= op_count(&it, seed));
        assert!(f64::from_bits(r.best_fitness) >= own);
        assert_eq!(r.best_fitness, fitness(&it, r.best, &target, config.lambda, &eval));
    }
}

#[test]
fn dearer_exact_candidates_are_taken_where_operations_count_for_them() {
    let flat = |_: &Vec<Step>, _: Complex64| Complex64::new(1.0f64.to_bits(), 0);
    for (lambda, dearer) in [(-1.0f64, true), (1.0, false)] {
        let mut it = Interner::new();
        let seed = parse(&mut it, "f(x, 1)").unwrap();
        let target = sample_bytes(&it, seed, &flat);
        let config = SearchConfig { lambda: lambda.to_bits(), ..Default::default() };
        let r = search(&mut it, seed, &target, &config, &flat, &|| true);
        assert!(r.exact_match_found);
        assert_eq!(op_count(&it, r.best) > op_count(&it, seed), dearer);
        let own = fitness(&it, seed, &target, config.lambda, &flat);
        assert!(f64::from_bits(r.best_fitness) >= f64::from_bits(own));
    }
}

#[test]
fn tosses_decide_the_way() {
    let mut it = Interner::new();
    let root = parse(&mut it, "f(f(x, 1), 2)").unwrap();
    let inner = it.node(root).a;
    let one = it.node(inner).b;
    let (go_left, go_right, stop) = ((false, true), (false, false), (true, true));
    assert_eq!(path_for(&it, root, &vec![]), (vec![], root));
    assert_eq!(path_for(&it, root, &vec![stop, go_left]), (vec![], root));
    assert_eq!(path_for(&it, root, &vec![go_left, stop]), (vec![(root, true)], inner));
    assert_eq!(
        path_for(&it, root, &vec![go_left, go_right, go_left]),
        (vec![(root, true), (inner, false)], one)
    );
}

#[test]
fn selection_keeps_the_first_of_the_ranking() {
    let fit = |x: f64| x.to_bits();
    let population = vec![10, 11, 12];
    let judged = vec![(3, fit(-3.0)), (1, fit(-1.0)), (2, fit(-2.0))];
    let costs = vec![1, 2, 3];
    let chosen = select(&population, &judged, &costs, 9, 7, fit(-9.0), 2);
    assert_eq!(chosen.best, 11);
    assert_eq!(chosen.best_fitness, fit(-1.0));
    assert!(!chosen.over);
    assert_eq!(chosen.elites, vec![11, 12]);
    assert_eq!(select(&population, &judged, &costs, 9, 7, fit(-9.0), 0).elites, vec![11]);
    assert_eq!(
        select(&population, &judged, &costs, 9, 7, fit(-9.0), 50).elites,
        vec![11, 12, 10]
    );
    let none = select(&vec![], &vec![], &vec![], 9, 7, fit(-9.0), 2);
    assert_eq!((none.best, none.over, none.elites.len()), (7, false, 0));
}

#[test]
fn rolls_choose_operators() {
    let (cross, mutation) = (0.3f64.to_bits(), 0.7f64.to_bits());
    assert_eq!(choose_operator(0.0f64.to_bits(), cross, mutation), Operator::Crossover);
    assert_eq!(choose_operator(0.3f64.to_bits(), cross, mutation), Operator::Mutation);
    assert_eq!(choose_operator(0.999f64.to_bits(), cross, mutation), Operator::Mutation);
    assert_eq!(choose_operator(0.9f64.to_bits(), cross, cross), Operator::Copy);
}

#[test]
fn rebuilding_along_a_path_grafts() {
    let mut it = Interner::new();
    let root = parse(&mut it, "f(f(x, 1), 2)").unwrap();
    let inner = it.node(root).a;
    let one = it.node(inner).b;
    let two = it.node(root).b;
    let path = vec![(root, true), (inner, false)];
    let grafted = rebuild(&mut it, &path, two);
    assert_eq!(to_expr_string(&it, grafted), "eml(eml(x,2),2)");
    let n = it.len();
    assert_eq!(rebuild(&mut it, &path, one), root);
    assert_eq!(it.len(), n);
    let mutant = mutate_with(&mut it, &path, two, two);
    assert_eq!(to_expr_string(&it, mutant), "eml(eml(x,eml(2,2)),2)");
    assert_eq!(rebuild(&mut it, &vec![], two), two);
}

#[test]
fn random_ways_lead_down_the_expression() {
    let mut it = Interner::new();
    let root = parse(&mut it, "f(f(x, 1), f(2, x))").unwrap();
    for _ in 0..50 {
        let (path, target) = random_path(&it, root);
        let mut at = root;
        for &(id, left) in &path {
            assert_eq!(id, at);
            assert_eq!(it.node(id).op, Op::Prim);
            at = if left { it.node(id).a } else { it.node(id).b };
        }
        assert_eq!(at, target);
    }
    let leaf = it.node(it.node(root).a).a;
    assert_eq!(random_path(&it, leaf), (vec![], leaf));
}

#[test]
fn subtree_nodes_lists_each_part_once() {
    let mut it = Interner::new();
    let other = parse(&mut it, "7").unwrap();
    let root = parse(&mut it, "f(f(x, 1), f(x, 1))").unwrap();
    let nodes = subtree_nodes(&it, root);
    let inner = it.node(root).a;
    let (x, one) = (it.node(inner).a, it.node(inner).b);
    assert_eq!(nodes, vec![root, inner, one, x]);
    assert_eq!(nodes.len(), 4);
    assert!(!nodes.contains(&other));
    assert!(nodes.contains(&root));
}

#[test]
fn offspring_are_expressions_of_the_interner() {
    let mut it = Interner::new();
    let a = parse(&mut it, "f(f(x, 1), 2)").unwrap();
    let b = parse(&mut it, "f(3, f(x, 4))").unwrap();
    for _ in 0..30 {
        let m = mutate(&mut it, a);
        assert_eq!(it.node(m).op, Op::Prim);
        let k = crossover(&mut it, a, b);
        assert!((k as usize) < it.len());
    }
    let config = SearchConfig { population_size: 9, ..Default::default() };
    let next = breed(&mut it, &vec![a, b], &config);
    assert_eq!(next.len(), 9);
    assert_eq!(&next[..2], &[a, b]);
    assert!(next.iter().all(|id| (*id as usize) < it.len()));
    let small = SearchConfig { population_size: 1, ..Default::default() };
    assert_eq!(breed(&mut it, &vec![a, b], &small), vec![a, b]);
}

#[test]
fn settings_have_their_defaults() {
    let config = SearchConfig::default();
    assert_eq!((config.population_size, config.elite_count), (200, 20));
    assert_eq!(f64::from_bits(config.lambda), 0.05);
    assert_eq!(f64::from_bits(config.mutation_rate), 0.7);
    assert_eq!(f64::from_bits(config.crossover_rate), 0.3);
}

#[test]
fn search_without_time_returns_the_seed() {
    let mut it = Interner::new();
    let seed = parse(&mut it, "f(x, 1)").unwrap();
    let target = vec![0u8; 96];
    let config = SearchConfig::default();
    let r = search(&mut it, seed, &target, &config, &eval, &|| false);
    assert_eq!(r.best, seed);
    assert_eq!(r.generations_run, 0);
    assert!(!r.exact_match_found);
    let own = fitness(&it, seed, &target, config.lambda, &eval);
    assert_eq!(r.best_fitness, own);
}
