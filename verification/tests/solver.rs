use casting_solver::casting_problem::apply_actor_filter;
use casting_solver::casting_problem::explore_options_recursive;
use casting_solver::casting_problem::get_actors_for_role;
use casting_solver::casting_problem::get_options;
use casting_solver::casting_problem::has_common_element;
use casting_solver::casting_problem::solve;

#[test]
fn two_roles_one_scene_unique_solution() {
    // Two roles sharing one scene, each with its own sole candidate:
    // exactly one complete assignment exists.
    let rpa = vec![vec![0], vec![1]];
    let sr = vec![vec![0, 1]];
    let asg = vec![None, None];
    let solutions = explore_options_recursive(&rpa, &sr, &asg);
    // The one valid assignment; it is completed along both role orders, so it
    // appears once per path.
    assert!(!solutions.is_empty());
    for sol in &solutions {
        assert_eq!(sol, &vec![0, 1]);
    }
}

#[test]
fn singleton_conflict_has_no_solution() {
    // Both co-scened roles can only take actor 0: no assignment survives.
    let rpa = vec![vec![0], vec![0]];
    let sr = vec![vec![0, 1]];
    let asg = vec![None, None];
    let solutions = explore_options_recursive(&rpa, &sr, &asg);
    assert!(solutions.is_empty());
}

#[test]
fn search_branches_over_all_unassigned_roles() {
    // Two independent roles, two candidates each: each complete assignment is
    // discovered along every interleaving the branching strategy explores.
    let rpa = vec![vec![0, 1], vec![0, 1]];
    let sr: Vec<Vec<usize>> = vec![];
    let asg = vec![None, None];
    let solutions = explore_options_recursive(&rpa, &sr, &asg);
    for sol in &solutions {
        assert_eq!(sol.len(), 2);
        assert!(sol[0] < 2 && sol[1] < 2);
    }
    // Without scenes nothing is pruned: 2 options at the root, then 2 under
    // each, every leaf complete; both orders reach each pair.
    assert_eq!(solutions.len(), 8);
}

#[test]
fn feasible_actors_respect_scene_occupancy() {
    let rpa = vec![vec![0, 1], vec![0, 1]];
    let sr = vec![vec![0, 1]];
    let asg = vec![Some(0), None];
    let actors = get_actors_for_role(&rpa, &sr, &asg, 1);
    assert_eq!(actors, vec![1]);
}

#[test]
fn options_cover_unassigned_roles_in_order() {
    let rpa = vec![vec![0], vec![1]];
    let sr: Vec<Vec<usize>> = vec![];
    let asg = vec![None, None];
    let options = get_options(&rpa, &sr, &asg);
    let pairs: Vec<(usize, usize)> = options.iter().map(|o| (o.role, o.actor)).collect();
    assert_eq!(pairs, vec![(0, 0), (1, 1)]);
}

#[test]
fn common_element_detection() {
    assert!(has_common_element(&vec![1, 2, 3], &vec![5, 3]));
    assert!(!has_common_element(&vec![1, 2], &vec![5, 3]));
    assert!(!has_common_element(&vec![], &vec![5]));
}

#[test]
fn filter_rejects_leads_sharing_a_scene() {
    // Actors 0 and 1 both play in scene 0.
    let sr = vec![vec![0, 1]];
    assert!(!apply_actor_filter(&vec![0, 1], &sr));
    // Actors 0 and 1 play in different scenes.
    let sr2 = vec![vec![0], vec![1]];
    assert!(apply_actor_filter(&vec![0, 1], &sr2));
    // Actor 1 plays nowhere.
    let sr3 = vec![vec![0, 1]];
    assert!(apply_actor_filter(&vec![0, 2], &sr3));
}

#[test]
fn solve_filters_out_leads_sharing_scene() {
    // The only assignment puts actors 1 and 2 (1-indexed) into scene 1:
    // the secondary rule removes it.
    let out = solve("2 1 2\n1 1\n1 2\n2 1 2").unwrap();
    assert!(out.is_empty());
}

#[test]
fn solve_keeps_disjoint_leads() {
    // Role 1 takes actor 1, role 2 takes actor 3 (1-indexed): actor 2 plays
    // nowhere, so the two leads never meet.
    let out = solve("2 1 3\n1 1\n1 3\n2 1 2").unwrap();
    assert!(!out.is_empty());
    for sol in &out {
        assert_eq!(sol, &vec![0, 2]);
    }
}

#[test]
fn solve_reports_missing_fields() {
    assert_eq!(solve("").unwrap_err(), "Expected number of roles missing");
    assert_eq!(solve("5").unwrap_err(), "Expected number of scenes missing");
    assert_eq!(solve("5 3").unwrap_err(), "Expected number of actors missing");
    assert_eq!(solve("1 1 1\n1 0").unwrap_err(), "Expected a positive id, found 0");
}
