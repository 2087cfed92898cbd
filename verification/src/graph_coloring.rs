use vstd::prelude::*;
use vstd::string::StrSliceExecFns;
use vstd::string::StringSliceAdditionalSpecFns;

verus! {

use crate::casting_problem::valid_solution;
use crate::casting_problem::views_of;
use crate::casting_problem::vec_contains;
use crate::casting_problem::lemma_push_contains;

/// An ASCII decimal digit.
pub open spec fn is_digit_byte(b: u8) -> bool {
    48 <= b <= 57
}

/// The first position at or after `j` that does not hold a digit.
pub open spec fn run_end(s: Seq<u8>, j: int) -> int
    decreases s.len() - j when 0 <= j <= s.len()
{
    if j >= s.len() {
        s.len() as int
    } else if is_digit_byte(s[j]) {
        run_end(s, j + 1)
    } else {
        j
    }
}

/// The value of the decimal digits `s[i..j)`, read left to right.
pub open spec fn digits_val(s: Seq<u8>, i: int, j: int) -> nat
    decreases j - i,
{
    if j <= i {
        0
    } else {
        digits_val(s, i, j - 1) * 10 + (s[j - 1] - 48) as nat
    }
}

/// The digit run `s[i..j)` as a machine word, if it fits.
pub open spec fn parse_run(s: Seq<u8>, i: int, j: int) -> Option<usize> {
    if digits_val(s, i, j) <= usize::MAX {
        Some(digits_val(s, i, j) as usize)
    } else {
        None
    }
}

/// One extraction step from position `i`: the number scanned (`None` when the
/// input is exhausted or the run does not fit in a machine word) and the
/// position at which the next scan resumes — one past the run's delimiter.
pub open spec fn spec_next(s: Seq<u8>, i: int) -> (Option<usize>, int)
    decreases s.len() - i when 0 <= i
{
    if i >= s.len() {
        (None::<usize>, i)
    } else if !is_digit_byte(s[i]) {
        spec_next(s, i + 1)
    } else {
        let e = run_end(s, i);
        let v = parse_run(s, i, e);
        if e < s.len() {
            (v, e + 1)
        } else {
            (v, e)
        }
    }
}

proof fn lemma_run_end_bounds(s: Seq<u8>, j: int)
    requires
        0 <= j <= s.len(),
    ensures
        j <= run_end(s, j) <= s.len(),
        run_end(s, j) == s.len() || !is_digit_byte(s[run_end(s, j)]),
    decreases s.len() - j,
{
    if j < s.len() && is_digit_byte(s[j]) {
        lemma_run_end_bounds(s, j + 1);
    }
}

fn is_ascii_digit_byte(c: u8) -> (r: bool)
    ensures
        r == is_digit_byte(c),
{
    48 <= c && c <= 57
}

/// Scans a string for maximal digit runs and yields them as numbers.
pub struct NumberExtractor {
    bytes: Vec<u8>,
    index: usize,
}

impl NumberExtractor {
    /// The UTF-8 bytes being scanned.
    pub closed spec fn bytes_view(&self) -> Seq<u8> {
        self.bytes@
    }

    /// The current scan position.
    pub closed spec fn pos(&self) -> int {
        self.index as int
    }

    /// The scan position never passes the end of the input.
    pub closed spec fn wf(&self) -> bool {
        self.index <= self.bytes@.len()
    }

    pub fn new(s: &str) -> (r: Self)
        ensures
            r.bytes_view() == s.spec_bytes(),
            r.pos() == 0,
            r.wf(),
    {
        NumberExtractor { bytes: s.as_bytes_vec(), index: 0 }
    }

    /// Scan forward to the next maximal digit run and return its value;
    /// `None` when no run remains or the run does not fit in a machine word.
    pub fn next(&mut self) -> (r: Option<usize>)
        requires
            old(self).wf(),
        ensures
            final(self).wf(),
            final(self).bytes_view() == old(self).bytes_view(),
            r == spec_next(old(self).bytes_view(), old(self).pos()).0,
            final(self).pos() == spec_next(old(self).bytes_view(), old(self).pos()).1,
    {
        let ghost b = self.bytes@;
        let ghost start0 = self.index as int;
        while self.index < self.bytes.len() && !is_ascii_digit_byte(self.bytes[self.index])
            invariant
                self.bytes@ == b,
                start0 <= self.index as int <= b.len(),
                spec_next(b, start0) == spec_next(b, self.index as int),
            decreases b.len() - self.index,
        {
            self.index += 1;
        }
        if self.index == self.bytes.len() {
            return None;
        }
        let start = self.index;
        let mut acc: usize = 0;
        let mut overflow: bool = false;
        while self.index < self.bytes.len() && is_ascii_digit_byte(self.bytes[self.index])
            invariant
                self.bytes@ == b,
                start <= self.index as int <= b.len(),
                start < b.len(),
                is_digit_byte(b[start as int]),
                forall|k: int| start <= k < self.index as int ==> is_digit_byte(b[k]),
                run_end(b, start as int) == run_end(b, self.index as int),
                !overflow ==> acc as nat == digits_val(b, start as int, self.index as int),
                overflow ==> digits_val(b, start as int, self.index as int) > usize::MAX,
            decreases b.len() - self.index,
        {
            let c = self.bytes[self.index];
            let d = c - 48;
            let ghost pre_val = digits_val(b, start as int, self.index as int);
            proof {
                assert(digits_val(b, start as int, self.index + 1) == pre_val * 10 + (b[self.index as int] - 48) as nat);
            }
            if !overflow {
                let step = acc.checked_mul(10);
                match step {
                    Some(t) => {
                        match t.checked_add(d as usize) {
                            Some(v) => {
                                acc = v;
                            },
                            None => {
                                overflow = true;
                            },
                        }
                    },
                    None => {
                        overflow = true;
                    },
                }
            } else {
                proof {
                    assert(pre_val * 10 >= pre_val) by (nonlinear_arith)
                        requires pre_val >= 0;
                }
            }
            self.index += 1;
        }
        proof {
            assert(run_end(b, self.index as int) == self.index as int);
            lemma_run_end_bounds(b, start as int);
        }
        let result = if overflow {
            None
        } else {
            Some(acc)
        };
        proof {
            assert(result == parse_run(b, start as int, run_end(b, start as int)));
            assert(spec_next(b, start as int).0 == result);
        }
        if self.index < self.bytes.len() {
            self.index += 1;
        }
        result
    }
}

/// A graph-coloring instance: a colour budget and the edge list. Vertex ids
/// are taken as they appear in the input; isolated vertices impose nothing.
#[derive(Debug)]
pub struct GraphColoringInput {
    pub n_colors: usize,
    pub edges: Vec<(usize, usize)>,
}

/// The edge pairs read from position `i` on: `k` edges, each two numbers,
/// or the message for the first number found missing.
pub open spec fn spec_parse_edges(s: Seq<u8>, i: int, k: nat) -> Result<Seq<(usize, usize)>, Seq<char>>
    decreases k,
{
    if k == 0 {
        Ok(Seq::empty())
    } else {
        let (from, i1) = spec_next(s, i);
        if from is None {
            Err("Expected edge start vertex missing"@)
        } else {
            let (to, i2) = spec_next(s, i1);
            if to is None {
                Err("Expected edge end vertex missing"@)
            } else {
                match spec_parse_edges(s, i2, (k - 1) as nat) {
                    Ok(rest) => Ok(seq![(from.unwrap(), to.unwrap())] + rest),
                    Err(e) => Err(e),
                }
            }
        }
    }
}

/// What parsing a graph-coloring instance from the bytes of the input text
/// yields: the colour count and the edges, or the first missing field.
pub open spec fn spec_parse_graph(s: Seq<u8>) -> Result<(usize, Seq<(usize, usize)>), Seq<char>> {
    let (nv, i1) = spec_next(s, 0);
    if nv is None {
        Err("Expected number of vertices missing"@)
    } else {
        let (ne, i2) = spec_next(s, i1);
        if ne is None {
            Err("Expected number of edges missing"@)
        } else {
            let (nc, i3) = spec_next(s, i2);
            if nc is None {
                Err("Expected number of colors missing"@)
            } else {
                match spec_parse_edges(s, i3, ne.unwrap() as nat) {
                    Ok(edges) => Ok((nc.unwrap(), edges)),
                    Err(e) => Err(e),
                }
            }
        }
    }
}

/// Reads a graph-coloring instance: vertex count (unused beyond parsing),
/// edge count, colour count, then one vertex pair per edge.
pub fn parse_input(input: &str) -> (r: Result<GraphColoringInput, String>)
    ensures
        match r {
            Ok(g) => spec_parse_graph(input.spec_bytes()) == Ok::<_, Seq<char>>(
                (g.n_colors, g.edges@),
            ),
            Err(e) => spec_parse_graph(input.spec_bytes()) is Err && e@ == spec_parse_graph(
                input.spec_bytes(),
            ).get_Err_0(),
        },
{
    let ghost b = input.spec_bytes();
    let mut extractor = NumberExtractor::new(input);
    let nv = extractor.next();
    if nv.is_none() {
        return Err("Expected number of vertices missing".to_owned());
    }
    let ne = extractor.next();
    if ne.is_none() {
        return Err("Expected number of edges missing".to_owned());
    }
    let nc = extractor.next();
    if nc.is_none() {
        return Err("Expected number of colors missing".to_owned());
    }
    let n_edges = ne.unwrap();
    let n_colors = nc.unwrap();
    let mut edges: Vec<(usize, usize)> = Vec::new();
    let mut k: usize = 0;
    proof {
        let pe = spec_parse_edges(b, extractor.pos(), n_edges as nat);
        if pe is Ok {
            assert(Seq::<(usize, usize)>::empty() + pe->Ok_0 =~= pe->Ok_0);
        }
    }
    while k < n_edges
        invariant
            extractor.wf(),
            extractor.bytes_view() == b,
            b == input.spec_bytes(),
            k <= n_edges,
            spec_parse_graph(b) == (match spec_parse_edges(
                b,
                extractor.pos(),
                (n_edges - k) as nat,
            ) {
                Ok(rest) => Ok::<(usize, Seq<(usize, usize)>), Seq<char>>(
                    (n_colors, edges@ + rest),
                ),
                Err(e) => Err(e),
            }),
        decreases n_edges - k,
    {
        let ghost p0 = extractor.pos();
        let ghost rem = (n_edges - k) as nat;
        let from = extractor.next();
        if from.is_none() {
            proof {
                assert(spec_parse_edges(b, p0, rem) == Err::<Seq<(usize, usize)>, Seq<char>>(
                    "Expected edge start vertex missing"@,
                ));
            }
            return Err("Expected edge start vertex missing".to_owned());
        }
        let to = extractor.next();
        if to.is_none() {
            proof {
                assert(spec_parse_edges(b, p0, rem) == Err::<Seq<(usize, usize)>, Seq<char>>(
                    "Expected edge end vertex missing"@,
                ));
            }
            return Err("Expected edge end vertex missing".to_owned());
        }
        let ghost pre = edges@;
        edges.push((from.unwrap(), to.unwrap()));
        proof {
            let pe = spec_parse_edges(b, extractor.pos(), (rem - 1) as nat);
            assert(spec_parse_edges(b, p0, rem) == (match pe {
                Ok(rest) => Ok::<Seq<(usize, usize)>, Seq<char>>(
                    seq![(from.unwrap(), to.unwrap())] + rest,
                ),
                Err(e) => Err(e),
            }));
            if pe is Ok {
                assert(pre + (seq![(from.unwrap(), to.unwrap())] + pe->Ok_0) =~= edges@
                    + pe->Ok_0);
            }
        }
        k += 1;
    }
    proof {
        assert(edges@ + Seq::<(usize, usize)>::empty() =~= edges@);
    }
    Ok(GraphColoringInput { n_colors, edges })
}

/// `l`, with `v` appended unless already present.
pub open spec fn insert_new(l: Seq<usize>, v: usize) -> Seq<usize> {
    if l.contains(v) {
        l
    } else {
        l.push(v)
    }
}

/// The endpoints of the first `n` edges, in first-appearance order, each once.
pub open spec fn attached_upto(edges: Seq<(usize, usize)>, n: int) -> Seq<usize>
    decreases n,
{
    if n <= 0 {
        Seq::empty()
    } else {
        insert_new(insert_new(attached_upto(edges, n - 1), edges[n - 1].0), edges[n - 1].1)
    }
}

/// The vertices touched by some edge; isolated vertices do not appear.
pub open spec fn attached_list(edges: Seq<(usize, usize)>) -> Seq<usize> {
    attached_upto(edges, edges.len() as int)
}

/// No element occurs twice.
pub open spec fn no_dups(l: Seq<usize>) -> bool {
    forall|i: int, j: int| 0 <= i < j < l.len() ==> l[i] != l[j]
}

pub proof fn lemma_attached_props(edges: Seq<(usize, usize)>, n: int)
    requires
        0 <= n <= edges.len(),
    ensures
        no_dups(attached_upto(edges, n)),
        forall|v: usize|
            #[trigger] attached_upto(edges, n).contains(v) <==> exists|k: int|
                0 <= k < n && ((#[trigger] edges[k]).0 == v || edges[k].1 == v),
        attached_upto(edges, n).len() <= 2 * n,
    decreases n,
{
    if n > 0 {
        lemma_attached_props(edges, n - 1);
        let prev = attached_upto(edges, n - 1);
        let mid = insert_new(prev, edges[n - 1].0);
        let cur = attached_upto(edges, n);
        assert forall|x: usize| #[trigger] mid.contains(x) <==> (prev.contains(x) || x == edges[n
            - 1].0) by {
            lemma_push_contains(prev, edges[n - 1].0, x);
            if prev.contains(edges[n - 1].0) && x == edges[n - 1].0 {
                assert(mid.contains(x));
            }
        }
        assert forall|x: usize| #[trigger] cur.contains(x) <==> (mid.contains(x) || x == edges[n
            - 1].1) by {
            lemma_push_contains(mid, edges[n - 1].1, x);
            if mid.contains(edges[n - 1].1) && x == edges[n - 1].1 {
                assert(cur.contains(x));
            }
        }
        assert forall|v: usize| #[trigger] cur.contains(v) implies exists|k: int|
            0 <= k < n && ((#[trigger] edges[k]).0 == v || edges[k].1 == v) by {
            if prev.contains(v) {
                let k = choose|k: int|
                    0 <= k < n - 1 && ((#[trigger] edges[k]).0 == v || edges[k].1 == v);
                assert(0 <= k < n && (edges[k].0 == v || edges[k].1 == v));
            } else {
                assert(edges[n - 1].0 == v || edges[n - 1].1 == v);
            }
        }
        assert forall|v: usize|
            (exists|k: int| 0 <= k < n && ((#[trigger] edges[k]).0 == v || edges[k].1 == v))
            implies #[trigger] cur.contains(v) by {
            let k = choose|k: int|
                0 <= k < n && ((#[trigger] edges[k]).0 == v || edges[k].1 == v);
            if k < n - 1 {
                assert(prev.contains(v));
            }
        }
        assert(no_dups(mid)) by {
            if !prev.contains(edges[n - 1].0) {
                assert forall|i: int, j: int| 0 <= i < j < mid.len() implies mid[i] != mid[j] by {
                    if j == mid.len() - 1 {
                        assert(prev.contains(prev[i]));
                    }
                }
            }
        }
        assert(mid.len() <= prev.len() + 1);
        assert(cur.len() <= mid.len() + 1);
        assert(no_dups(cur)) by {
            if !mid.contains(edges[n - 1].1) {
                assert forall|i: int, j: int| 0 <= i < j < cur.len() implies cur[i] != cur[j] by {
                    if j == cur.len() - 1 {
                        assert(mid.contains(mid[i]));
                    }
                }
            }
        }
    }
}

/// The actors open to a vertex-role: every colour actor, `3` up to the total.
pub open spec fn color_actor_list(num_actors: int) -> Seq<usize> {
    Seq::new(if num_actors >= 3 { (num_actors - 3) as nat } else { 0 }, |i: int| (3 + i) as usize)
}

/// The gadget's actor count: the three base actors plus one actor per colour,
/// never more actors than roles.
pub open spec fn gadget_num_actors(n_colors: int, m: int) -> int {
    if n_colors <= m {
        n_colors + 3
    } else {
        m + 3
    }
}

/// The gadget's potential-actor sets: three base roles pinned to their own
/// base actor, then one role per attached vertex, open to every colour actor.
pub open spec fn gadget_rpa(m: int, num_actors: int) -> Seq<Seq<usize>> {
    Seq::new(
        if m >= 0 {
            (m + 3) as nat
        } else {
            3
        },
        |r: int|
            if r == 0 {
                seq![0usize]
            } else if r == 1 {
                seq![1usize]
            } else if r == 2 {
                seq![2usize]
            } else {
                color_actor_list(num_actors)
            },
    )
}

/// The gadget role of an attached vertex.
pub open spec fn role_of(att: Seq<usize>, v: usize) -> usize {
    (3 + att.index_of(v)) as usize
}

/// The gadget's scenes: the two base scenes, then one scene per edge holding
/// the two endpoint roles.
pub open spec fn gadget_sr(edges: Seq<(usize, usize)>, att: Seq<usize>) -> Seq<Seq<usize>> {
    Seq::new(
        (edges.len() + 2) as nat,
        |sc: int|
            if sc == 0 {
                seq![0usize, 2usize]
            } else if sc == 1 {
                seq![1usize, 2usize]
            } else {
                seq![role_of(att, edges[sc - 2].0), role_of(att, edges[sc - 2].1)]
            },
    )
}

/// `c` is a proper colouring of the attached vertices with fewer than
/// `n_colors` colours.
pub open spec fn valid_coloring(edges: Seq<(usize, usize)>, c: Map<usize, usize>, n_colors: int) -> bool {
    &&& forall|v: usize|
        attached_list(edges).contains(v) ==> c.dom().contains(v) && (#[trigger] c[v]) < n_colors
    &&& forall|k: int| 0 <= k < edges.len() ==> c[(#[trigger] edges[k]).0] != c[edges[k].1]
}

/// The graph has a proper colouring within the colour budget.
pub open spec fn colorable(edges: Seq<(usize, usize)>, n_colors: int) -> bool {
    exists|c: Map<usize, usize>| valid_coloring(edges, c, n_colors)
}

proof fn lemma_color_member(a: int, x: usize)
    requires
        3 <= a <= usize::MAX,
    ensures
        color_actor_list(a).contains(x) <==> (3 <= x < a),
{
    if 3 <= x < a {
        assert(color_actor_list(a)[x - 3] == x);
    }
    if color_actor_list(a).contains(x) {
        let k = choose|k: int| 0 <= k < color_actor_list(a).len() && color_actor_list(a)[k] == x;
        assert(x == (3 + k) as usize);
    }
}

proof fn lemma_index_of_props(l: Seq<usize>, v: usize)
    requires
        l.contains(v),
    ensures
        0 <= l.index_of(v) < l.len(),
        l[l.index_of(v)] == v,
{
    assert(exists|i: int| 0 <= i < l.len() && l[i] == v);
}

/// Reduction soundness: a graph whose edges join two distinct vertices is
/// colourable within the colour budget exactly when the casting instance the
/// gadget builds from it admits a valid assignment.
pub proof fn lemma_reduction_preserves_satisfiability(edges: Seq<(usize, usize)>, n_colors: usize)
    requires
        forall|k: int| 0 <= k < edges.len() ==> (#[trigger] edges[k]).0 != edges[k].1,
        attached_list(edges).len() + 3 <= usize::MAX,
    ensures
        colorable(edges, n_colors as int) <==> exists|sol: Seq<usize>|
            valid_solution(
                gadget_rpa(
                    attached_list(edges).len() as int,
                    gadget_num_actors(n_colors as int, attached_list(edges).len() as int),
                ),
                gadget_sr(edges, attached_list(edges)),
                sol,
            ),
{
    let att = attached_list(edges);
    let m = att.len() as int;
    let aa = gadget_num_actors(n_colors as int, m);
    let rpa = gadget_rpa(m, aa);
    let sr = gadget_sr(edges, att);
    lemma_attached_props(edges, edges.len() as int);

    // Every attached vertex's gadget role is a distinct index in [3, m + 3).
    assert forall|v: usize| att.contains(v) implies 3 <= #[trigger] role_of(att, v) < m + 3
        && att[role_of(att, v) - 3] == v by {
        lemma_index_of_props(att, v);
    }

    if colorable(edges, n_colors as int) {
        let sol: Seq<usize> = if n_colors as int >= m {
            // Enough colours for every vertex-role to take its own actor.
            Seq::new((m + 3) as nat, |r: int| r as usize)
        } else {
            let c = choose|c: Map<usize, usize>| valid_coloring(edges, c, n_colors as int);
            Seq::new(
                (m + 3) as nat,
                |r: int|
                    if r < 3 {
                        r as usize
                    } else {
                        (3 + c[att[r - 3]]) as usize
                    },
            )
        };
        assert(valid_solution(rpa, sr, sol)) by {
            let c = choose|c: Map<usize, usize>| valid_coloring(edges, c, n_colors as int);
            // Coverage: each role's actor lies in its potential set.
            assert forall|r: int| 0 <= r < sol.len() implies rpa[r].contains(#[trigger] sol[r]) by {
                if r >= 3 {
                    assert(att.contains(att[r - 3]));
                    if n_colors as int >= m {
                        lemma_color_member(aa, r as usize);
                    } else {
                        assert(c[att[r - 3]] < n_colors as int);
                        lemma_color_member(aa, (3 + c[att[r - 3]]) as usize);
                    }
                } else {
                    assert(rpa[r] == seq![r as usize]);
                    assert(rpa[r][0] == r as usize);
                }
            }
            // Scene-disjointness: distinct roles in a scene get distinct actors.
            assert forall|sc: int, i: int, j: int|
                0 <= sc < sr.len() && 0 <= i < sr[sc].len() && 0 <= j < sr[sc].len()
                    && sr[sc][i] != sr[sc][j] && sr[sc][i] < sol.len() && sr[sc][j] < sol.len()
                    implies sol[#[trigger] sr[sc][i] as int] != sol[#[trigger] sr[sc][j] as int] by {
                let a = sr[sc][i];
                let b = sr[sc][j];
                if n_colors as int >= m {
                    assert(sol[a as int] == a && sol[b as int] == b);
                } else {
                    if sc >= 2 {
                        let u = edges[sc - 2].0;
                        let w = edges[sc - 2].1;
                        assert(att.contains(u) && att.contains(w));
                        let ru = role_of(att, u);
                        let rw = role_of(att, w);
                        assert(att[ru - 3] == u && att[rw - 3] == w);
                        assert((a == ru && b == rw) || (a == rw && b == ru));
                        assert(c[u] != c[w]);
                        assert(sol[ru as int] == (3 + c[u]) as usize);
                        assert(sol[rw as int] == (3 + c[w]) as usize);
                        assert(c[u] < n_colors as int && c[w] < n_colors as int);
                    } else {
                        // Base scenes bind base roles only; role 2's actor is 2,
                        // roles 0 and 1 keep their own actors.
                        assert(a < 3 && b < 3);
                        assert(sol[a as int] == a && sol[b as int] == b);
                    }
                }
            }
        }
    }

    if exists|sol: Seq<usize>| valid_solution(rpa, sr, sol) {
        let sol = choose|sol: Seq<usize>| valid_solution(rpa, sr, sol);
        let c = Map::<usize, usize>::new(
            |v: usize| att.contains(v),
            |v: usize| (sol[3 + att.index_of(v)] - 3) as usize,
        );
        assert(valid_coloring(edges, c, n_colors as int)) by {
            assert forall|v: usize| att.contains(v) implies c.dom().contains(v) && (#[trigger] c[v])
                < n_colors as int by {
                lemma_index_of_props(att, v);
                let rv = role_of(att, v);
                assert(rpa[rv as int].contains(sol[rv as int]));
                lemma_color_member(aa, sol[rv as int]);
                assert(3 <= sol[rv as int] < aa);
                assert(c[v] == (sol[rv as int] - 3) as usize);
            }
            assert forall|k: int| 0 <= k < edges.len() implies c[(#[trigger] edges[k]).0]
                != c[edges[k].1] by {
                let u = edges[k].0;
                let w = edges[k].1;
                assert(att.contains(u) && att.contains(w));
                lemma_index_of_props(att, u);
                lemma_index_of_props(att, w);
                let ru = role_of(att, u);
                let rw = role_of(att, w);
                assert(att[ru - 3] == u && att[rw - 3] == w);
                assert(ru != rw);
                let sc = k + 2;
                assert(sr[sc] == seq![ru, rw]);
                assert(sr[sc][0] == ru && sr[sc][1] == rw);
                assert(sol[ru as int] != sol[rw as int]);
                assert(rpa[ru as int].contains(sol[ru as int]));
                assert(rpa[rw as int].contains(sol[rw as int]));
                lemma_color_member(aa, sol[ru as int]);
                lemma_color_member(aa, sol[rw as int]);
                assert(c[u] == (sol[ru as int] - 3) as usize);
                assert(c[w] == (sol[rw as int] - 3) as usize);
            }
        }
    }
}

/// The decimal digits of `n`, most significant first.
pub open spec fn dec(n: nat) -> Seq<u8>
    decreases n,
{
    if n < 10 {
        seq![(48 + n) as u8]
    } else {
        dec(n / 10).push((48 + n % 10) as u8)
    }
}

/// A single space.
pub open spec fn sp() -> Seq<u8> {
    seq![32u8]
}

/// A single line feed.
pub open spec fn nl() -> Seq<u8> {
    seq![10u8]
}

/// The 1-indexed colour-actor ids `next ..= last`, separated by spaces.
pub open spec fn actor_ids_text(next: int, last: int) -> Seq<u8>
    decreases last - next,
{
    if next > last {
        Seq::empty()
    } else if next == last {
        dec(next as nat)
    } else {
        dec(next as nat) + sp() + actor_ids_text(next + 1, last)
    }
}

/// One vertex-role line: the count of colour actors, then their 1-indexed ids.
pub open spec fn vertex_role_line(num_actors: int) -> Seq<u8> {
    dec((num_actors - 3) as nat) + sp() + actor_ids_text(4, num_actors)
}

/// `m` identical vertex-role lines, each ended by a line feed.
pub open spec fn vertex_lines(m: int, num_actors: int) -> Seq<u8>
    decreases m,
{
    if m <= 0 {
        Seq::empty()
    } else {
        vertex_lines(m - 1, num_actors) + vertex_role_line(num_actors) + nl()
    }
}

/// One edge scene line: two roles, given 1-indexed.
pub open spec fn edge_line(e: (usize, usize), att: Seq<usize>) -> Seq<u8> {
    dec(2) + sp() + dec((role_of(att, e.0) + 1) as nat) + sp() + dec(
        (role_of(att, e.1) + 1) as nat,
    )
}

/// The first `k` edge scene lines, each preceded by a line feed.
pub open spec fn edge_lines(edges: Seq<(usize, usize)>, att: Seq<usize>, k: int) -> Seq<u8>
    decreases k,
{
    if k <= 0 {
        Seq::empty()
    } else {
        edge_lines(edges, att, k - 1) + nl() + edge_line(edges[k - 1], att)
    }
}

/// The casting-instance text the gadget emits: role, scene and actor counts,
/// the three base roles pinned to their base actors, one line per vertex-role
/// open to every colour actor, the two base scenes, and one scene per edge.
/// All ids are 1-indexed; lines are joined by line feeds with no trailing one.
pub open spec fn casting_text(edges: Seq<(usize, usize)>, att: Seq<usize>, num_actors: int) -> Seq<
    u8,
> {
    dec((att.len() + 3) as nat) + nl() + dec((edges.len() + 2) as nat) + nl() + dec(
        num_actors as nat,
    ) + nl() + dec(1) + sp() + dec(1) + nl() + dec(1) + sp() + dec(2) + nl() + dec(1) + sp() + dec(
        3,
    ) + nl() + vertex_lines(att.len() as int, num_actors) + dec(2) + sp() + dec(1) + sp() + dec(3)
        + nl() + dec(2) + sp() + dec(2) + sp() + dec(3) + edge_lines(
        edges,
        att,
        edges.len() as int,
    )
}

/// The characters that a sequence of ASCII bytes denotes.
pub open spec fn ascii_chars(s: Seq<u8>) -> Seq<char> {
    Seq::new(s.len(), |i: int| s[i] as char)
}

/// Every byte is ASCII.
pub open spec fn all_ascii(s: Seq<u8>) -> bool {
    forall|i: int| 0 <= i < s.len() ==> s[i] < 128
}

proof fn lemma_ascii_add(a: Seq<u8>, b: Seq<u8>)
    requires
        all_ascii(a),
        all_ascii(b),
    ensures
        all_ascii(a + b),
{
    assert forall|i: int| 0 <= i < (a + b).len() implies (a + b)[i] < 128 by {
        if i < a.len() {
            assert((a + b)[i] == a[i]);
        } else {
            assert((a + b)[i] == b[i - a.len()]);
        }
    }
}

proof fn lemma_dec_ascii(n: nat)
    ensures
        all_ascii(dec(n)),
        dec(n).len() >= 1,
    decreases n,
{
    if n >= 10 {
        lemma_dec_ascii(n / 10);
    }
}

/// Relies on `String::from_utf8`: ASCII bytes are valid UTF-8 and decode to
/// the characters of the same code points, one per byte.
#[verifier::external_body]
fn ascii_to_string(bytes: Vec<u8>) -> (r: String)
    requires
        all_ascii(bytes@),
    ensures
        r@ == ascii_chars(bytes@),
{
    String::from_utf8(bytes).unwrap()
}

fn push_byte(buf: &mut Vec<u8>, b: u8)
    requires
        b < 128,
    ensures
        final(buf)@ == old(buf)@ + seq![b],
        all_ascii(old(buf)@) ==> all_ascii(final(buf)@),
{
    buf.push(b);
    proof {
        assert(buf@ =~= old(buf)@ + seq![b]);
        if all_ascii(old(buf)@) {
            lemma_ascii_add(old(buf)@, seq![b]);
        }
    }
}

fn push_dec(buf: &mut Vec<u8>, n: usize)
    ensures
        final(buf)@ == old(buf)@ + dec(n as nat),
        all_ascii(old(buf)@) ==> all_ascii(final(buf)@),
    decreases n,
{
    proof {
        lemma_dec_ascii(n as nat);
        if all_ascii(old(buf)@) {
            lemma_ascii_add(old(buf)@, dec(n as nat));
        }
    }
    if n < 10 {
        buf.push(48 + (n as u8));
        proof {
            assert(old(buf)@.push((48 + n) as u8) =~= old(buf)@ + dec(n as nat));
        }
    } else {
        push_dec(buf, n / 10);
        buf.push(48 + ((n % 10) as u8));
        proof {
            assert(dec(n as nat) =~= dec((n / 10) as nat).push((48 + (n as nat) % 10) as u8));
            assert(buf@ =~= old(buf)@ + dec(n as nat));
        }
    }
}

fn push_bytes(buf: &mut Vec<u8>, piece: &Vec<u8>)
    ensures
        final(buf)@ == old(buf)@ + piece@,
        all_ascii(old(buf)@) && all_ascii(piece@) ==> all_ascii(final(buf)@),
{
    let mut j: usize = 0;
    while j < piece.len()
        invariant
            j <= piece@.len(),
            buf@ == old(buf)@ + piece@.take(j as int),
        decreases piece@.len() - j,
    {
        buf.push(piece[j]);
        proof {
            assert(buf@ =~= old(buf)@ + piece@.take(j + 1));
        }
        j += 1;
    }
    proof {
        assert(buf@ =~= old(buf)@ + piece@);
        if all_ascii(old(buf)@) && all_ascii(piece@) {
            lemma_ascii_add(old(buf)@, piece@);
        }
    }
}

fn build_vertex_role_line(num_actors: usize) -> (r: Vec<u8>)
    requires
        num_actors >= 3,
    ensures
        r@ == vertex_role_line(num_actors as int),
        all_ascii(r@),
{
    let mut buf: Vec<u8> = Vec::new();
    proof {
        assert(buf@ =~= Seq::<u8>::empty());
    }
    push_dec(&mut buf, num_actors - 3);
    push_byte(&mut buf, 32);
    proof {
        assert(Seq::<u8>::empty() + dec((num_actors - 3) as nat) =~= dec((num_actors - 3) as nat));
        assert(buf@ == dec((num_actors - 3) as nat) + sp());
    }
    let ghost head = buf@;
    let mut t: usize = 0;
    while t < num_actors - 3
        invariant
            num_actors >= 3,
            t <= num_actors - 3,
            all_ascii(buf@),
            head == dec((num_actors - 3) as nat) + sp(),
            t < num_actors - 3 ==> vertex_role_line(num_actors as int) == buf@ + actor_ids_text(
                4 + t,
                num_actors as int,
            ),
            t == num_actors - 3 ==> vertex_role_line(num_actors as int) == buf@,
        decreases num_actors - 3 - t,
    {
        let ghost next = 4 + t as int;
        push_dec(&mut buf, 4 + t);
        if t + 1 < num_actors - 3 {
            push_byte(&mut buf, 32);
            proof {
                assert(actor_ids_text(next, num_actors as int) == dec(next as nat) + sp()
                    + actor_ids_text(next + 1, num_actors as int));
            }
        } else {
            proof {
                assert(next == num_actors as int);
                assert(actor_ids_text(next, num_actors as int) == dec(next as nat));
            }
        }
        t += 1;
    }
    proof {
        if num_actors == 3 {
            assert(actor_ids_text(4, 3) == Seq::<u8>::empty());
            assert(buf@ + Seq::<u8>::empty() =~= buf@);
        }
    }
    buf
}

fn index_in(att: &Vec<usize>, v: usize) -> (r: usize)
    requires
        att@.contains(v),
        no_dups(att@),
    ensures
        r < att@.len(),
        r as int == att@.index_of(v),
{
    let mut i: usize = 0;
    while i < att.len()
        invariant
            i <= att@.len(),
            att@.contains(v),
            no_dups(att@),
            forall|k: int| 0 <= k < i ==> att@[k] != v,
        decreases att@.len() - i,
    {
        if att[i] == v {
            proof {
                lemma_index_of_props(att@, v);
                assert(att@[att@.index_of(v)] == v);
            }
            return i;
        }
        i += 1;
    }
    proof {
        let k = choose|k: int| 0 <= k < att@.len() && att@[k] == v;
        assert(false);
    }
    0
}

/// Builds the casting-problem text equivalent to a graph-coloring instance:
/// three base roles and scenes force the base actors apart, one role per
/// attached vertex may take any colour actor, and one scene per edge keeps
/// its endpoint roles on distinct actors. Parse failures are reported as the
/// first missing field; an instance whose counts exceed the machine word is
/// refused.
pub fn reduce_to_casting_problem(input: &str) -> (r: Result<String, String>)
    ensures
        match spec_parse_graph(input.spec_bytes()) {
            Ok(pg) => {
                if attached_list(pg.1).len() + 3 > usize::MAX || pg.1.len() + 2 > usize::MAX {
                    r is Err
                } else {
                    r is Ok && r->Ok_0@ == ascii_chars(
                        casting_text(
                            pg.1,
                            attached_list(pg.1),
                            gadget_num_actors(pg.0 as int, attached_list(pg.1).len() as int),
                        ),
                    )
                }
            },
            Err(msg) => r is Err && r->Err_0@ == msg,
        },
{
    let g = match parse_input(input) {
        Ok(g) => g,
        Err(e) => {
            return Err(e);
        },
    };
    let n_colors = g.n_colors;
    let edges = g.edges;
    let mut att: Vec<usize> = Vec::new();
    let mut k: usize = 0;
    while k < edges.len()
        invariant
            k <= edges@.len(),
            att@ == attached_upto(edges@, k as int),
        decreases edges@.len() - k,
    {
        let (from, to) = edges[k];
        if !vec_contains(&att, from) {
            att.push(from);
        }
        if !vec_contains(&att, to) {
            att.push(to);
        }
        k += 1;
    }
    proof {
        lemma_attached_props(edges@, edges@.len() as int);
    }
    let m = att.len();
    let num_roles = match m.checked_add(3) {
        Some(v) => v,
        None => {
            return Err("The instance is too large".to_owned());
        },
    };
    let num_scenes = match edges.len().checked_add(2) {
        Some(v) => v,
        None => {
            return Err("The instance is too large".to_owned());
        },
    };
    let num_actors = if n_colors >= num_roles {
        num_roles
    } else if n_colors > usize::MAX - 3 {
        num_roles
    } else if n_colors + 3 <= num_roles {
        n_colors + 3
    } else {
        num_roles
    };
    proof {
        assert(num_actors as int == gadget_num_actors(n_colors as int, m as int));
    }
    let ghost aa = num_actors as int;
    let mut buf: Vec<u8> = Vec::new();
    proof {
        assert(buf@ =~= Seq::<u8>::empty());
    }
    push_dec(&mut buf, num_roles);
    push_byte(&mut buf, 10);
    push_dec(&mut buf, num_scenes);
    push_byte(&mut buf, 10);
    push_dec(&mut buf, num_actors);
    push_byte(&mut buf, 10);
    push_dec(&mut buf, 1);
    push_byte(&mut buf, 32);
    push_dec(&mut buf, 1);
    push_byte(&mut buf, 10);
    push_dec(&mut buf, 1);
    push_byte(&mut buf, 32);
    push_dec(&mut buf, 2);
    push_byte(&mut buf, 10);
    push_dec(&mut buf, 1);
    push_byte(&mut buf, 32);
    push_dec(&mut buf, 3);
    push_byte(&mut buf, 10);
    let ghost header = buf@;
    proof {
        assert(Seq::<u8>::empty() + dec((m + 3) as nat) =~= dec((m + 3) as nat));
        assert(header == dec((m + 3) as nat) + nl() + dec((edges@.len() + 2) as nat) + nl() + dec(
            aa as nat,
        ) + nl() + dec(1) + sp() + dec(1) + nl() + dec(1) + sp() + dec(2) + nl() + dec(1) + sp()
            + dec(3) + nl());
    }
    let line = build_vertex_role_line(num_actors);
    let mut i: usize = 0;
    while i < m
        invariant
            i <= m,
            line@ == vertex_role_line(aa),
            all_ascii(buf@),
            all_ascii(line@),
            buf@ == header + vertex_lines(i as int, aa),
        decreases m - i,
    {
        push_bytes(&mut buf, &line);
        push_byte(&mut buf, 10);
        proof {
            assert(buf@ =~= header + vertex_lines(i + 1, aa));
        }
        i += 1;
    }
    push_dec(&mut buf, 2);
    push_byte(&mut buf, 32);
    push_dec(&mut buf, 1);
    push_byte(&mut buf, 32);
    push_dec(&mut buf, 3);
    push_byte(&mut buf, 10);
    push_dec(&mut buf, 2);
    push_byte(&mut buf, 32);
    push_dec(&mut buf, 2);
    push_byte(&mut buf, 32);
    push_dec(&mut buf, 3);
    let ghost body = buf@;
    proof {
        assert(body == header + vertex_lines(m as int, aa) + dec(2) + sp() + dec(1) + sp() + dec(3)
            + nl() + dec(2) + sp() + dec(2) + sp() + dec(3));
    }
    let mut t: usize = 0;
    while t < edges.len()
        invariant
            t <= edges@.len(),
            m == att@.len(),
            m + 3 <= usize::MAX,
            no_dups(att@),
            forall|v: usize|
                #[trigger] att@.contains(v) <==> exists|j: int|
                    0 <= j < edges@.len() && ((#[trigger] edges@[j]).0 == v || edges@[j].1 == v),
            all_ascii(buf@),
            buf@ == body + edge_lines(edges@, att@, t as int),
        decreases edges@.len() - t,
    {
        let (from, to) = edges[t];
        proof {
            assert(att@.contains(from) && att@.contains(to));
        }
        let iu = index_in(&att, from);
        let iw = index_in(&att, to);
        push_byte(&mut buf, 10);
        push_dec(&mut buf, 2);
        push_byte(&mut buf, 32);
        push_dec(&mut buf, iu + 4);
        push_byte(&mut buf, 32);
        push_dec(&mut buf, iw + 4);
        proof {
            let e = edges@[t as int];
            assert((iu + 4) as nat == (role_of(att@, e.0) + 1) as nat);
            assert((iw + 4) as nat == (role_of(att@, e.1) + 1) as nat);
            assert(buf@ =~= body + edge_lines(edges@, att@, t + 1));
        }
        t += 1;
    }
    let text = ascii_to_string(buf);
    proof {
        assert(text@ == ascii_chars(casting_text(edges@, att@, aa)));
    }
    Ok(text)
}

} // verus!
