use casting_solver::casting_problem::parse_input as parse_casting;
use casting_solver::casting_problem::reduce_to_graph_coloring;
use casting_solver::casting_problem::solve;
use casting_solver::graph_coloring::parse_input as parse_graph;
use casting_solver::graph_coloring::reduce_to_casting_problem;
use casting_solver::graph_coloring::NumberExtractor;

#[test]
fn extractor_scans_maximal_digit_runs() {
    let mut ex = NumberExtractor::new("12 ab34-5");
    assert_eq!(ex.next(), Some(12));
    assert_eq!(ex.next(), Some(34));
    assert_eq!(ex.next(), Some(5));
    assert_eq!(ex.next(), None);
}

#[test]
fn extractor_stops_on_oversized_run() {
    // A run that does not fit in a machine word ends the scan.
    let mut ex = NumberExtractor::new("99999999999999999999999999 7");
    assert_eq!(ex.next(), None);
}

#[test]
fn graph_parse_reads_counts_and_edges() {
    let g = parse_graph("3 2 2\n1 2\n2 3").unwrap();
    assert_eq!(g.n_colors, 2);
    assert_eq!(g.edges, vec![(1, 2), (2, 3)]);
}

#[test]
fn graph_parse_reports_missing_fields() {
    assert_eq!(parse_graph("").unwrap_err(), "Expected number of vertices missing");
    assert_eq!(parse_graph("3").unwrap_err(), "Expected number of edges missing");
    assert_eq!(parse_graph("3 1").unwrap_err(), "Expected number of colors missing");
    assert_eq!(parse_graph("3 1 2").unwrap_err(), "Expected edge start vertex missing");
    assert_eq!(parse_graph("3 1 2 1").unwrap_err(), "Expected edge end vertex missing");
}

#[test]
fn gadget_text_for_one_edge() {
    // Two vertices joined by one edge, two colours: three base roles, two
    // vertex-roles open to actors 4 and 5, the base scenes, one edge scene.
    let out = reduce_to_casting_problem("2 1 2\n1 2").unwrap();
    assert_eq!(out, "5\n3\n5\n1 1\n1 2\n1 3\n2 4 5\n2 4 5\n2 1 3\n2 2 3\n2 4 5");
}

#[test]
fn gadget_caps_actors_at_role_count() {
    // One edge, ten colours: only min(10 + 3, 5) = 5 actors are kept.
    let out = reduce_to_casting_problem("2 1 10\n1 2").unwrap();
    assert_eq!(out, "5\n3\n5\n1 1\n1 2\n1 3\n2 4 5\n2 4 5\n2 1 3\n2 2 3\n2 4 5");
}

#[test]
fn gadget_drops_isolated_vertices() {
    // Vertex 3 touches no edge: no role is made for it.
    let out = reduce_to_casting_problem("3 1 1\n1 2").unwrap();
    assert_eq!(out, "5\n3\n4\n1 1\n1 2\n1 3\n1 4\n1 4\n2 1 3\n2 2 3\n2 4 5");
}

#[test]
fn gadget_reports_missing_fields() {
    assert_eq!(
        reduce_to_casting_problem("").unwrap_err(),
        "Expected number of vertices missing"
    );
    assert_eq!(
        reduce_to_casting_problem("2 1 2").unwrap_err(),
        "Expected edge start vertex missing"
    );
}

#[test]
fn reduced_instance_solutions_match_colorings() {
    // One edge, two colours: the edge graph has two proper colourings, and the
    // gadget instance admits the matching assignments.
    let text = reduce_to_casting_problem("2 1 2\n1 2").unwrap();
    let solutions = solve(&text).unwrap();
    assert!(!solutions.is_empty());
    for sol in &solutions {
        assert_eq!(sol[0], 0);
        assert_eq!(sol[1], 1);
        assert_eq!(sol[2], 2);
        assert!(sol[3] == 3 || sol[3] == 4);
        assert!(sol[4] == 3 || sol[4] == 4);
        assert_ne!(sol[3], sol[4]);
    }
}

#[test]
fn uncolorable_graph_gives_unsolvable_instance() {
    // A triangle cannot be coloured with two colours, so the gadget instance
    // has no valid assignment.
    let text = reduce_to_casting_problem("3 3 2\n1 2\n2 3\n3 1").unwrap();
    let solutions = solve(&text).unwrap();
    assert!(solutions.is_empty());
}

#[test]
fn projection_to_graph_coloring() {
    let (rpa, sr) = parse_casting("3 1 2\n1 1\n1 2\n2 1 2\n3 1 2 3").unwrap();
    assert_eq!(rpa, vec![vec![0], vec![1], vec![0, 1]]);
    assert_eq!(sr, vec![vec![0, 1, 2]]);
    let g = reduce_to_graph_coloring(&rpa, &sr);
    assert_eq!(g.n_vertices, 3);
    assert_eq!(g.n_colors, 2);
    assert_eq!(g.edges, vec![(0, 1), (0, 2), (1, 2)]);
}

#[test]
fn projection_of_single_role_instance() {
    // One role, one candidate, no scenes: one vertex, no edges, one colour.
    let rpa: Vec<Vec<usize>> = vec![vec![0]];
    let sr: Vec<Vec<usize>> = vec![];
    let g = reduce_to_graph_coloring(&rpa, &sr);
    assert_eq!(g.n_vertices, 1);
    assert_eq!(g.n_colors, 1);
    assert!(g.edges.is_empty());
}

#[test]
fn casting_parse_splits_roles_and_scenes() {
    let (rpa, sr) = parse_casting("2 1 2\n1 1\n1 2\n2 1 2").unwrap();
    assert_eq!(rpa, vec![vec![0], vec![1]]);
    assert_eq!(sr, vec![vec![0, 1]]);
}

#[test]
fn casting_parse_ignores_delimiters() {
    // Non-digit characters, including '-', only separate numbers.
    let (rpa, sr) = parse_casting("2-1-2:(1 1)(1 2)[2 1-2]").unwrap();
    assert_eq!(rpa, vec![vec![0], vec![1]]);
    assert_eq!(sr, vec![vec![0, 1]]);
}
