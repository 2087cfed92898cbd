use vstd::prelude::*;

verus! {

/// A single branching choice of the search: bind `actor` to `role`.
#[derive(Debug, Copy, Clone, Eq, PartialEq, Structural)]
pub struct RoleActor {
    pub role: usize,
    pub actor: usize,
}

/// Does some element occur in both sequences?
pub open spec fn common_element(a: Seq<usize>, b: Seq<usize>) -> bool {
    exists|x: usize| a.contains(x) && b.contains(x)
}

/// Whether the two vectors share at least one element.
pub fn has_common_element(a: &Vec<usize>, b: &Vec<usize>) -> (r: bool)
    ensures
        r == common_element(a@, b@),
{
    let mut i: usize = 0;
    while i < a.len()
        invariant
            i <= a.len(),
            forall|k: int| 0 <= k < i ==> !b@.contains(a@[k]),
        decreases a.len() - i,
    {
        let mut j: usize = 0;
        while j < b.len()
            invariant
                j <= b.len(),
                i < a.len(),
                forall|k: int| 0 <= k < j ==> b@[k] != a@[i as int],
            decreases b.len() - j,
        {
            if a[i] == b[j] {
                assert(a@.contains(a@[i as int]) && b@.contains(b@[j as int]));
                return true;
            }
            j += 1;
        }
        assert(!b@.contains(a@[i as int]));
        i += 1;
    }
    assert forall|x: usize| a@.contains(x) implies !b@.contains(x) by {
        let k = choose|k: int| 0 <= k < a@.len() && a@[k] == x;
    }
    false
}

pub(crate) proof fn lemma_push_contains(s: Seq<usize>, v: usize, x: usize)
    ensures
        s.push(v).contains(x) <==> (s.contains(x) || x == v),
{
    if x == v {
        assert(s.push(v)[s.len() as int] == v);
    }
    if s.contains(x) {
        let k = choose|k: int| 0 <= k < s.len() && s[k] == x;
        assert(s.push(v)[k] == x);
    }
    if s.push(v).contains(x) {
        let k = choose|k: int| 0 <= k < s.push(v).len() && s.push(v)[k] == x;
        if k < s.len() {
            assert(s[k] == x);
        }
    }
}

proof fn lemma_add_contains(a: Seq<usize>, b: Seq<usize>, x: usize)
    ensures
        (a + b).contains(x) <==> (a.contains(x) || b.contains(x)),
{
    if a.contains(x) {
        let k = choose|k: int| 0 <= k < a.len() && a[k] == x;
        assert((a + b)[k] == x);
    }
    if b.contains(x) {
        let k = choose|k: int| 0 <= k < b.len() && b[k] == x;
        assert((a + b)[a.len() + k] == x);
    }
    if (a + b).contains(x) {
        let k = choose|k: int| 0 <= k < (a + b).len() && (a + b)[k] == x;
        if k < a.len() {
            assert(a[k] == x);
        } else {
            assert(b[k - a.len()] == x);
        }
    }
}

/// The sequences held by a vector of vectors, as mathematical sequences.
pub open spec fn views_of(v: Seq<Vec<usize>>) -> Seq<Seq<usize>> {
    v.map_values(|x: Vec<usize>| x@)
}

/// Actor `actor` already plays some role that appears in scene `sc`.
pub open spec fn actor_in_scene(
    sr: Seq<Seq<usize>>,
    asg: Seq<Option<usize>>,
    sc: int,
    actor: usize,
) -> bool {
    exists|r: usize| r < asg.len() && asg[r as int] == Some(actor) && sr[sc].contains(r)
}

/// The single feasibility rule: `actor` may be bound to `role` when no scene
/// containing `role` already has `actor` playing some assigned role in it.
pub open spec fn feasible_actor(
    sr: Seq<Seq<usize>>,
    asg: Seq<Option<usize>>,
    role: usize,
    actor: usize,
) -> bool {
    forall|sc: int|
        0 <= sc < sr.len() ==> !(#[trigger] sr[sc].contains(role) && actor_in_scene(
            sr,
            asg,
            sc,
            actor,
        ))
}

/// The first `n` entries of `pot` that are feasible for `role`, in order.
pub open spec fn actors_filtered(
    pot: Seq<usize>,
    sr: Seq<Seq<usize>>,
    asg: Seq<Option<usize>>,
    role: usize,
    n: int,
) -> Seq<usize>
    decreases n,
{
    if n <= 0 {
        Seq::empty()
    } else {
        let rest = actors_filtered(pot, sr, asg, role, n - 1);
        if feasible_actor(sr, asg, role, pot[n - 1]) {
            rest.push(pot[n - 1])
        } else {
            rest
        }
    }
}

/// Every feasible `(role, actor)` pair for one unassigned role.
pub open spec fn role_options(
    rpa: Seq<Seq<usize>>,
    sr: Seq<Seq<usize>>,
    asg: Seq<Option<usize>>,
    role: usize,
) -> Seq<RoleActor> {
    actors_filtered(rpa[role as int], sr, asg, role, rpa[role as int].len() as int).map_values(
        |a: usize| RoleActor { role, actor: a },
    )
}

/// The feasible `(role, actor)` pairs over the unassigned roles below `n`,
/// roles in ascending order, each role's candidates in potential-set order.
pub open spec fn options_upto(
    rpa: Seq<Seq<usize>>,
    sr: Seq<Seq<usize>>,
    asg: Seq<Option<usize>>,
    n: int,
) -> Seq<RoleActor>
    decreases n,
{
    if n <= 0 {
        Seq::empty()
    } else {
        options_upto(rpa, sr, asg, n - 1) + (if asg[n - 1] is None {
            role_options(rpa, sr, asg, (n - 1) as usize)
        } else {
            Seq::empty()
        })
    }
}

/// All transitions available from the partial assignment `asg`.
pub open spec fn all_options(
    rpa: Seq<Seq<usize>>,
    sr: Seq<Seq<usize>>,
    asg: Seq<Option<usize>>,
) -> Seq<RoleActor> {
    options_upto(rpa, sr, asg, asg.len() as int)
}

/// How many roles are still unassigned.
pub open spec fn count_unassigned(asg: Seq<Option<usize>>) -> nat
    decreases asg.len(),
{
    if asg.len() == 0 {
        0
    } else {
        count_unassigned(asg.drop_last()) + (if asg.last() is None {
            1nat
        } else {
            0nat
        })
    }
}

/// Every role is bound.
pub open spec fn is_complete(asg: Seq<Option<usize>>) -> bool {
    forall|r: int| 0 <= r < asg.len() ==> asg[r].is_some()
}

/// The role-to-actor vector of a complete assignment.
pub open spec fn extract(asg: Seq<Option<usize>>) -> Seq<usize> {
    asg.map_values(|o: Option<usize>| o.unwrap())
}

pub proof fn lemma_count_unassigned_update(asg: Seq<Option<usize>>, r: int, a: usize)
    requires
        0 <= r < asg.len(),
        asg[r] is None,
    ensures
        count_unassigned(asg.update(r, Some(a))) < count_unassigned(asg),
    decreases asg.len(),
{
    let upd = asg.update(r, Some(a));
    if r == asg.len() - 1 {
        assert(upd.drop_last() =~= asg.drop_last());
    } else {
        assert(upd.drop_last() =~= asg.drop_last().update(r, Some(a)));
        lemma_count_unassigned_update(asg.drop_last(), r, a);
    }
}

pub proof fn lemma_actors_filtered_props(
    pot: Seq<usize>,
    sr: Seq<Seq<usize>>,
    asg: Seq<Option<usize>>,
    role: usize,
    n: int,
)
    requires
        n <= pot.len(),
    ensures
        forall|k: int|
            0 <= k < actors_filtered(pot, sr, asg, role, n).len() ==> {
                let a = #[trigger] actors_filtered(pot, sr, asg, role, n)[k];
                pot.contains(a) && feasible_actor(sr, asg, role, a)
            },
    decreases n,
{
    if n > 0 {
        lemma_actors_filtered_props(pot, sr, asg, role, n - 1);
        let prev = actors_filtered(pot, sr, asg, role, n - 1);
        let cur = actors_filtered(pot, sr, asg, role, n);
        assert forall|k: int| 0 <= k < cur.len() implies {
            let a = #[trigger] cur[k];
            pot.contains(a) && feasible_actor(sr, asg, role, a)
        } by {
            if feasible_actor(sr, asg, role, pot[n - 1]) {
                assert(cur == prev.push(pot[n - 1]));
                if k == prev.len() {
                    assert(cur[k] == pot[n - 1]);
                    assert(pot.contains(pot[n - 1]));
                } else {
                    assert(cur[k] == prev[k]);
                }
            } else {
                assert(cur == prev);
            }
        }
    }
}

pub proof fn lemma_options_props(
    rpa: Seq<Seq<usize>>,
    sr: Seq<Seq<usize>>,
    asg: Seq<Option<usize>>,
    n: int,
)
    requires
        n <= asg.len(),
        asg.len() == rpa.len(),
        asg.len() <= usize::MAX,
    ensures
        forall|k: int|
            0 <= k < options_upto(rpa, sr, asg, n).len() ==> {
                let o = #[trigger] options_upto(rpa, sr, asg, n)[k];
                o.role < n && asg[o.role as int] is None && rpa[o.role as int].contains(o.actor)
                    && feasible_actor(sr, asg, o.role, o.actor)
            },
    decreases n,
{
    if n > 0 {
        lemma_options_props(rpa, sr, asg, n - 1);
        let role = (n - 1) as usize;
        let prev = options_upto(rpa, sr, asg, n - 1);
        let cur = options_upto(rpa, sr, asg, n);
        let ext: Seq<RoleActor> = if asg[n - 1] is None {
            role_options(rpa, sr, asg, role)
        } else {
            Seq::empty()
        };
        if asg[n - 1] is None {
            lemma_actors_filtered_props(rpa[n - 1], sr, asg, role, rpa[n - 1].len() as int);
        }
        assert forall|k: int| 0 <= k < cur.len() implies {
            let o = #[trigger] cur[k];
            o.role < n && asg[o.role as int] is None && rpa[o.role as int].contains(o.actor)
                && feasible_actor(sr, asg, o.role, o.actor)
        } by {
            assert(cur == prev + ext);
            if k < prev.len() {
                assert(cur[k] == prev[k]);
            } else {
                assert(cur[k] == ext[k - prev.len()]);
                let filtered = actors_filtered(rpa[n - 1], sr, asg, role, rpa[n - 1].len() as int);
                assert(ext[k - prev.len()] == RoleActor { role, actor: filtered[k - prev.len()] });
            }
        }
    }
}

/// All complete valid assignments reachable from `asg`, in depth-first
/// discovery order: the accepting leaves of the search tree rooted at `asg`.
pub open spec fn explore_from(
    rpa: Seq<Seq<usize>>,
    sr: Seq<Seq<usize>>,
    asg: Seq<Option<usize>>,
) -> Seq<Seq<usize>>
    decreases count_unassigned(asg), all_options(rpa, sr, asg).len() + 1,
        when asg.len() == rpa.len() && asg.len() <= usize::MAX
{
    explore_opts(rpa, sr, asg, 0)
}

/// The accepting leaves contributed by the options of `asg` from index `i` on.
pub open spec fn explore_opts(
    rpa: Seq<Seq<usize>>,
    sr: Seq<Seq<usize>>,
    asg: Seq<Option<usize>>,
    i: int,
) -> Seq<Seq<usize>>
    decreases count_unassigned(asg), all_options(rpa, sr, asg).len() - i,
        when asg.len() == rpa.len() && asg.len() <= usize::MAX
{
    let opts = all_options(rpa, sr, asg);
    if i < 0 || i >= opts.len() {
        Seq::empty()
    } else {
        let o = opts[i];
        let child = asg.update(o.role as int, Some(o.actor));
        let sub = if is_complete(child) {
            seq![extract(child)]
        } else {
            proof {
                lemma_options_props(rpa, sr, asg, asg.len() as int);
                assert(opts[i].role < asg.len() && asg[opts[i].role as int] is None);
                lemma_count_unassigned_update(asg, o.role as int, o.actor);
            }
            explore_from(rpa, sr, child)
        };
        sub + explore_opts(rpa, sr, asg, i + 1)
    }
}

/// Whether every role of `v` is bound.
pub fn assignment_complete(v: &Vec<Option<usize>>) -> (r: bool)
    ensures
        r == is_complete(v@),
{
    let mut i: usize = 0;
    while i < v.len()
        invariant
            i <= v.len(),
            forall|k: int| 0 <= k < i ==> v@[k].is_some(),
        decreases v.len() - i,
    {
        if v[i].is_none() {
            return false;
        }
        i += 1;
    }
    true
}

fn clone_assignment(v: &Vec<Option<usize>>) -> (r: Vec<Option<usize>>)
    ensures
        r@ == v@,
{
    let mut out: Vec<Option<usize>> = Vec::new();
    let mut i: usize = 0;
    while i < v.len()
        invariant
            i <= v.len(),
            out@ == v@.take(i as int),
        decreases v.len() - i,
    {
        out.push(v[i]);
        proof {
            assert(out@ =~= v@.take(i + 1));
        }
        i += 1;
    }
    proof {
        assert(out@ =~= v@);
    }
    out
}

fn extract_assignment(v: &Vec<Option<usize>>) -> (r: Vec<usize>)
    requires
        is_complete(v@),
    ensures
        r@ == extract(v@),
{
    let mut out: Vec<usize> = Vec::new();
    let mut i: usize = 0;
    while i < v.len()
        invariant
            i <= v.len(),
            is_complete(v@),
            out@ == extract(v@).take(i as int),
        decreases v.len() - i,
    {
        let a = v[i].unwrap();
        out.push(a);
        proof {
            assert(out@ =~= extract(v@).take(i + 1));
        }
        i += 1;
    }
    proof {
        assert(out@ =~= extract(v@));
    }
    out
}

pub(crate) fn vec_contains(v: &Vec<usize>, x: usize) -> (r: bool)
    ensures
        r == v@.contains(x),
{
    let mut i: usize = 0;
    while i < v.len()
        invariant
            i <= v.len(),
            forall|k: int| 0 <= k < i ==> v@[k] != x,
        decreases v.len() - i,
    {
        if v[i] == x {
            return true;
        }
        i += 1;
    }
    false
}

/// The scene indices below `n` whose role set holds `role`, ascending, each
/// once.
pub open spec fn scenes_list(sr: Seq<Seq<usize>>, role: usize, n: int) -> Seq<usize>
    decreases n,
{
    if n <= 0 {
        Seq::empty()
    } else {
        let rest = scenes_list(sr, role, n - 1);
        if sr[n - 1].contains(role) {
            rest.push((n - 1) as usize)
        } else {
            rest
        }
    }
}

pub proof fn lemma_scenes_list_membership(sr: Seq<Seq<usize>>, role: usize, n: int)
    requires
        0 <= n <= usize::MAX,
    ensures
        forall|x: usize|
            #[trigger] scenes_list(sr, role, n).contains(x) <==> (x < n && sr[x as int].contains(
                role,
            )),
    decreases n,
{
    if n > 0 {
        lemma_scenes_list_membership(sr, role, n - 1);
        let prev = scenes_list(sr, role, n - 1);
        assert forall|x: usize|
            #[trigger] scenes_list(sr, role, n).contains(x) <==> (x < n && sr[x as int].contains(
                role,
            )) by {
            if sr[n - 1].contains(role) {
                lemma_push_contains(prev, (n - 1) as usize, x);
            }
        }
    }
}

/// The role indices below `n` that are bound to `actor`, ascending, each once.
pub open spec fn plays_list(asg: Seq<Option<usize>>, actor: usize, n: int) -> Seq<usize>
    decreases n,
{
    if n <= 0 {
        Seq::empty()
    } else {
        let rest = plays_list(asg, actor, n - 1);
        if asg[n - 1] == Some(actor) {
            rest.push((n - 1) as usize)
        } else {
            rest
        }
    }
}

pub proof fn lemma_plays_list_membership(asg: Seq<Option<usize>>, actor: usize, n: int)
    requires
        0 <= n <= usize::MAX,
    ensures
        forall|x: usize|
            #[trigger] plays_list(asg, actor, n).contains(x) <==> (x < n && asg[x as int] == Some(
                actor,
            )),
    decreases n,
{
    if n > 0 {
        lemma_plays_list_membership(asg, actor, n - 1);
        let prev = plays_list(asg, actor, n - 1);
        assert forall|x: usize|
            #[trigger] plays_list(asg, actor, n).contains(x) <==> (x < n && asg[x as int] == Some(
                actor,
            )) by {
            if asg[n - 1] == Some(actor) {
                lemma_push_contains(prev, (n - 1) as usize, x);
            }
        }
    }
}

/// The scenes in which `role` appears, in increasing scene order, each once.
pub fn role_in_scenes(scenes_roles: &Vec<Vec<usize>>, role: usize) -> (r: Vec<usize>)
    ensures
        r@ == scenes_list(views_of(scenes_roles@), role, scenes_roles@.len() as int),
        forall|sc: usize|
            #[trigger] r@.contains(sc) <==> (sc < scenes_roles@.len() && views_of(scenes_roles@)[sc as int].contains(role)),
{
    let ghost sr_v = views_of(scenes_roles@);
    let mut out: Vec<usize> = Vec::new();
    let mut sc: usize = 0;
    while sc < scenes_roles.len()
        invariant
            sc <= scenes_roles.len(),
            sr_v == views_of(scenes_roles@),
            out@ == scenes_list(sr_v, role, sc as int),
        decreases scenes_roles.len() - sc,
    {
        if vec_contains(&scenes_roles[sc], role) {
            out.push(sc);
        }
        sc += 1;
    }
    proof {
        lemma_scenes_list_membership(sr_v, role, scenes_roles@.len() as int);
    }
    out
}

/// The roles that `actor` currently plays under the partial assignment, in
/// increasing role order, each once.
pub fn actor_plays_roles(roles_assigned_actors: &Vec<Option<usize>>, actor: usize) -> (r: Vec<
    usize,
>)
    ensures
        r@ == plays_list(roles_assigned_actors@, actor, roles_assigned_actors@.len() as int),
        forall|x: usize|
            #[trigger] r@.contains(x) <==> (x < roles_assigned_actors@.len()
                && roles_assigned_actors@[x as int] == Some(actor)),
{
    let mut out: Vec<usize> = Vec::new();
    let mut role: usize = 0;
    while role < roles_assigned_actors.len()
        invariant
            role <= roles_assigned_actors.len(),
            out@ == plays_list(roles_assigned_actors@, actor, role as int),
        decreases roles_assigned_actors.len() - role,
    {
        let mut hit: bool = false;
        if let Some(a) = roles_assigned_actors[role] {
            if a == actor {
                hit = true;
            }
        }
        if hit {
            out.push(role);
        }
        role += 1;
    }
    proof {
        lemma_plays_list_membership(
            roles_assigned_actors@,
            actor,
            roles_assigned_actors@.len() as int,
        );
    }
    out
}

/// The scenes in which `actor` already plays some assigned role.
pub fn actor_in_scenes(
    scenes_roles: &Vec<Vec<usize>>,
    roles_assigned_actors: &Vec<Option<usize>>,
    actor: usize,
) -> (r: Vec<usize>)
    ensures
        forall|sc: usize|
            #[trigger] r@.contains(sc) <==> (sc < scenes_roles@.len() && actor_in_scene(
                views_of(scenes_roles@),
                roles_assigned_actors@,
                sc as int,
                actor,
            )),
{
    let ghost sr_v = views_of(scenes_roles@);
    let ghost asg = roles_assigned_actors@;
    let plays = actor_plays_roles(roles_assigned_actors, actor);
    let mut out: Vec<usize> = Vec::new();
    let mut i: usize = 0;
    while i < plays.len()
        invariant
            i <= plays.len(),
            sr_v == views_of(scenes_roles@),
            asg == roles_assigned_actors@,
            forall|x: usize|
                #[trigger] plays@.contains(x) <==> (x < asg.len() && asg[x as int] == Some(actor)),
            forall|x: usize|
                #[trigger] out@.contains(x) <==> (x < sr_v.len() && exists|j: int|
                    0 <= j < i && sr_v[x as int].contains(#[trigger] plays@[j])),
        decreases plays.len() - i,
    {
        let mut ss = role_in_scenes(scenes_roles, plays[i]);
        let ghost pre = out@;
        let ghost ssv = ss@;
        out.append(&mut ss);
        proof {
            assert forall|x: usize|
                #[trigger] out@.contains(x) <==> (x < sr_v.len() && exists|j: int|
                    0 <= j < i + 1 && sr_v[x as int].contains(#[trigger] plays@[j])) by {
                lemma_add_contains(pre, ssv, x);
                if ssv.contains(x) {
                    assert(sr_v[x as int].contains(plays@[i as int]));
                }
                if pre.contains(x) || ssv.contains(x) {
                } else {
                    if x < sr_v.len() && exists|j: int|
                        0 <= j < i + 1 && sr_v[x as int].contains(#[trigger] plays@[j]) {
                        let j = choose|j: int|
                            0 <= j < i + 1 && sr_v[x as int].contains(#[trigger] plays@[j]);
                        assert(j == i);
                        assert(ssv.contains(x));
                    }
                }
            }
        }
        i += 1;
    }
    proof {
        assert forall|sc: usize|
            #[trigger] out@.contains(sc) <==> (sc < sr_v.len() && actor_in_scene(
                sr_v,
                asg,
                sc as int,
                actor,
            )) by {
            if out@.contains(sc) {
                let j = choose|j: int|
                    0 <= j < plays@.len() && sr_v[sc as int].contains(#[trigger] plays@[j]);
                assert(plays@.contains(plays@[j]));
                assert(plays@[j] < asg.len() && asg[plays@[j] as int] == Some(actor));
            }
            if sc < sr_v.len() && actor_in_scene(sr_v, asg, sc as int, actor) {
                let rr = choose|rr: usize|
                    rr < asg.len() && asg[rr as int] == Some(actor) && sr_v[sc as int].contains(rr);
                assert(plays@.contains(rr));
                let j = choose|j: int| 0 <= j < plays@.len() && plays@[j] == rr;
                assert(sr_v[sc as int].contains(plays@[j]));
            }
        }
    }
    out
}

/// The actors of `role`'s potential set that are feasible right now.
/// Querying a role that is already assigned violates the search discipline.
pub fn get_actors_for_role(
    roles_potential_actors: &Vec<Vec<usize>>,
    scenes_roles: &Vec<Vec<usize>>,
    roles_assigned_actors: &Vec<Option<usize>>,
    role: usize,
) -> (r: Vec<usize>)
    requires
        role < roles_potential_actors@.len(),
        roles_assigned_actors@[role as int] is None,
    ensures
        r@ == actors_filtered(
            roles_potential_actors@[role as int]@,
            views_of(scenes_roles@),
            roles_assigned_actors@,
            role,
            roles_potential_actors@[role as int]@.len() as int,
        ),
{
    let ghost sr_v = views_of(scenes_roles@);
    let ghost asg = roles_assigned_actors@;
    let ghost pot = roles_potential_actors@[role as int]@;
    let role_scenes = role_in_scenes(scenes_roles, role);
    let n_scenes = scenes_roles.len();
    let mut out: Vec<usize> = Vec::new();
    let mut k: usize = 0;
    while k < roles_potential_actors[role].len()
        invariant
            sr_v.len() == n_scenes,
            role < roles_potential_actors@.len(),
            sr_v == views_of(scenes_roles@),
            asg == roles_assigned_actors@,
            pot == roles_potential_actors@[role as int]@,
            k <= pot.len(),
            out@ == actors_filtered(pot, sr_v, asg, role, k as int),
            forall|sc: usize|
                #[trigger] role_scenes@.contains(sc) <==> (sc < scenes_roles@.len()
                    && sr_v[sc as int].contains(role)),
        decreases pot.len() - k,
    {
        let actor = roles_potential_actors[role][k];
        let actor_scenes = actor_in_scenes(scenes_roles, roles_assigned_actors, actor);
        let clash = has_common_element(&role_scenes, &actor_scenes);
        proof {
            if clash {
                let x = choose|x: usize| role_scenes@.contains(x) && actor_scenes@.contains(x);
                assert(sr_v[x as int].contains(role) && actor_in_scene(sr_v, asg, x as int, actor));
                assert(!feasible_actor(sr_v, asg, role, actor));
            } else {
                assert forall|sc: int|
                    0 <= sc < sr_v.len() implies !(#[trigger] sr_v[sc].contains(role)
                    && actor_in_scene(sr_v, asg, sc, actor)) by {
                    if sr_v[sc].contains(role) && actor_in_scene(sr_v, asg, sc, actor) {
                        assert(role_scenes@.contains(sc as usize));
                        assert(actor_scenes@.contains(sc as usize));
                        assert(common_element(role_scenes@, actor_scenes@));
                    }
                }
                assert(feasible_actor(sr_v, asg, role, actor));
            }
        }
        if !clash {
            out.push(actor);
        }
        k += 1;
    }
    out
}

/// Every feasible `(role, actor)` transition from the partial assignment:
/// unassigned roles in ascending order, candidates in potential-set order.
pub fn get_options(
    roles_potential_actors: &Vec<Vec<usize>>,
    scenes_roles: &Vec<Vec<usize>>,
    roles_assigned_actors: &Vec<Option<usize>>,
) -> (r: Vec<RoleActor>)
    requires
        roles_assigned_actors@.len() == roles_potential_actors@.len(),
    ensures
        r@ == all_options(views_of(roles_potential_actors@), views_of(scenes_roles@), roles_assigned_actors@),
{
    let ghost rpa_v = views_of(roles_potential_actors@);
    let ghost sr_v = views_of(scenes_roles@);
    let ghost asg = roles_assigned_actors@;
    let mut out: Vec<RoleActor> = Vec::new();
    let mut role: usize = 0;
    while role < roles_assigned_actors.len()
        invariant
            rpa_v == views_of(roles_potential_actors@),
            sr_v == views_of(scenes_roles@),
            asg == roles_assigned_actors@,
            asg.len() == rpa_v.len(),
            role <= asg.len(),
            out@ == options_upto(rpa_v, sr_v, asg, role as int),
        decreases roles_assigned_actors.len() - role,
    {
        let ghost pre = out@;
        if roles_assigned_actors[role].is_none() {
            let acts = get_actors_for_role(
                roles_potential_actors,
                scenes_roles,
                roles_assigned_actors,
                role,
            );
            let ghost f = |a: usize| RoleActor { role, actor: a };
            let mut k: usize = 0;
            while k < acts.len()
                invariant
                    k <= acts.len(),
                    out@ == pre + acts@.take(k as int).map_values(f),
                    f == (|a: usize| RoleActor { role, actor: a }),
                decreases acts.len() - k,
            {
                out.push(RoleActor { role, actor: acts[k] });
                proof {
                    assert(acts@.take(k + 1) =~= acts@.take(k as int).push(acts@[k as int]));
                    assert(acts@.take(k + 1).map_values(f) =~= acts@.take(k as int).map_values(
                        f,
                    ).push(f(acts@[k as int])));
                    assert(out@ =~= pre + acts@.take(k + 1).map_values(f));
                }
                k += 1;
            }
            proof {
                assert(acts@.take(acts@.len() as int) =~= acts@);
                assert(out@ =~= pre + role_options(rpa_v, sr_v, asg, role));
                assert(options_upto(rpa_v, sr_v, asg, role + 1) == options_upto(
                    rpa_v,
                    sr_v,
                    asg,
                    role as int,
                ) + role_options(rpa_v, sr_v, asg, role));
            }
        } else {
            proof {
                assert(options_upto(rpa_v, sr_v, asg, role + 1) =~= options_upto(
                    rpa_v,
                    sr_v,
                    asg,
                    role as int,
                ) + Seq::<RoleActor>::empty());
                assert(out@ =~= options_upto(rpa_v, sr_v, asg, role + 1));
            }
        }
        role += 1;
    }
    out
}

/// Depth-first enumeration of every complete valid assignment reachable from
/// the given partial assignment, in discovery order. The result equals the
/// accepting-leaf sequence of the full transition tree, so exactly one
/// assignment is returned per leaf: nothing is pruned beyond infeasibility,
/// and nothing is deduplicated.
pub fn explore_options_recursive(
    roles_potential_actors: &Vec<Vec<usize>>,
    scenes_roles: &Vec<Vec<usize>>,
    roles_assigned_actors: &Vec<Option<usize>>,
) -> (r: Vec<Vec<usize>>)
    requires
        roles_assigned_actors@.len() == roles_potential_actors@.len(),
    ensures
        views_of(r@) == explore_from(
            views_of(roles_potential_actors@),
            views_of(scenes_roles@),
            roles_assigned_actors@,
        ),
    decreases count_unassigned(roles_assigned_actors@),
{
    let ghost rpa_v = views_of(roles_potential_actors@);
    let ghost sr_v = views_of(scenes_roles@);
    let ghost asg = roles_assigned_actors@;
    let options = get_options(roles_potential_actors, scenes_roles, roles_assigned_actors);
    let mut all: Vec<Vec<usize>> = Vec::new();
    let mut i: usize = 0;
    let n_roles = roles_assigned_actors.len();
    proof {
        assert(asg.len() == n_roles);
        lemma_options_props(rpa_v, sr_v, asg, asg.len() as int);
    }
    while i < options.len()
        invariant
            asg.len() <= usize::MAX,
            rpa_v == views_of(roles_potential_actors@),
            sr_v == views_of(scenes_roles@),
            asg == roles_assigned_actors@,
            asg.len() == rpa_v.len(),
            options@ == all_options(rpa_v, sr_v, asg),
            i <= options@.len(),
            forall|k: int|
                0 <= k < options@.len() ==> {
                    let o = #[trigger] options@[k];
                    o.role < asg.len() && asg[o.role as int] is None && rpa_v[o.role as int].contains(o.actor)
                        && feasible_actor(sr_v, asg, o.role, o.actor)
                },
            explore_from(rpa_v, sr_v, asg) == views_of(all@) + explore_opts(rpa_v, sr_v, asg, i as int),
        decreases options@.len() - i,
    {
        let o = options[i];
        let mut new_asg = clone_assignment(roles_assigned_actors);
        new_asg.set(o.role, Some(o.actor));
        let ghost child = asg.update(o.role as int, Some(o.actor));
        let ghost pre = views_of(all@);
        let ghost sub = if is_complete(child) {
            seq![extract(child)]
        } else {
            explore_from(rpa_v, sr_v, child)
        };
        proof {
            assert(explore_opts(rpa_v, sr_v, asg, i as int) == sub + explore_opts(
                rpa_v,
                sr_v,
                asg,
                i + 1,
            ));
        }
        if assignment_complete(&new_asg) {
            let sol = extract_assignment(&new_asg);
            all.push(sol);
            proof {
                assert(views_of(all@) =~= pre + seq![extract(child)]);
            }
        } else {
            proof {
                lemma_count_unassigned_update(asg, o.role as int, o.actor);
            }
            let mut results = explore_options_recursive(
                roles_potential_actors,
                scenes_roles,
                &new_asg,
            );
            let ghost rv = views_of(results@);
            all.append(&mut results);
            proof {
                assert(views_of(all@) =~= pre + rv);
            }
        }
        proof {
            assert(views_of(all@) + explore_opts(rpa_v, sr_v, asg, i + 1) =~= pre + (sub
                + explore_opts(rpa_v, sr_v, asg, i + 1)));
        }
        i += 1;
    }
    proof {
        assert(explore_opts(rpa_v, sr_v, asg, i as int) =~= Seq::<Seq<usize>>::empty());
        assert(views_of(all@) + Seq::<Seq<usize>>::empty() =~= views_of(all@));
    }
    all
}

/// Every role is bound to an actor from its own potential set.
pub open spec fn solution_covers(rpa: Seq<Seq<usize>>, sol: Seq<usize>) -> bool {
    &&& sol.len() == rpa.len()
    &&& forall|r: int| 0 <= r < sol.len() ==> rpa[r].contains(#[trigger] sol[r])
}

/// In every scene, distinct roles are bound to pairwise distinct actors.
pub open spec fn solution_scene_disjoint(sr: Seq<Seq<usize>>, sol: Seq<usize>) -> bool {
    forall|sc: int, i: int, j: int|
        0 <= sc < sr.len() && 0 <= i < sr[sc].len() && 0 <= j < sr[sc].len()
            && sr[sc][i] != sr[sc][j] && sr[sc][i] < sol.len() && sr[sc][j] < sol.len()
            ==> sol[#[trigger] sr[sc][i] as int] != sol[#[trigger] sr[sc][j] as int]
}

/// A complete assignment that satisfies the casting constraints.
pub open spec fn valid_solution(rpa: Seq<Seq<usize>>, sr: Seq<Seq<usize>>, sol: Seq<usize>) -> bool {
    solution_covers(rpa, sol) && solution_scene_disjoint(sr, sol)
}

/// The invariant the search maintains: every bound role respects its
/// potential set, and no scene holds two distinct bound roles with one actor.
pub open spec fn partial_valid(
    rpa: Seq<Seq<usize>>,
    sr: Seq<Seq<usize>>,
    asg: Seq<Option<usize>>,
) -> bool {
    &&& asg.len() == rpa.len()
    &&& forall|r: int|
        0 <= r < asg.len() && asg[r].is_some() ==> rpa[r].contains((#[trigger] asg[r]).unwrap())
    &&& forall|sc: int, i: int, j: int|
        0 <= sc < sr.len() && 0 <= i < sr[sc].len() && 0 <= j < sr[sc].len()
            && sr[sc][i] != sr[sc][j] && sr[sc][i] < asg.len() && sr[sc][j] < asg.len()
            && asg[sr[sc][i] as int].is_some() && asg[sr[sc][j] as int].is_some()
            ==> asg[#[trigger] sr[sc][i] as int] != asg[#[trigger] sr[sc][j] as int]
}

/// Binding a feasible actor to an unassigned role keeps the invariant.
pub proof fn lemma_option_preserves_valid(
    rpa: Seq<Seq<usize>>,
    sr: Seq<Seq<usize>>,
    asg: Seq<Option<usize>>,
    role: usize,
    actor: usize,
)
    requires
        partial_valid(rpa, sr, asg),
        role < asg.len(),
        asg[role as int] is None,
        rpa[role as int].contains(actor),
        feasible_actor(sr, asg, role, actor),
    ensures
        partial_valid(rpa, sr, asg.update(role as int, Some(actor))),
{
    let upd = asg.update(role as int, Some(actor));
    assert forall|sc: int, i: int, j: int|
        0 <= sc < sr.len() && 0 <= i < sr[sc].len() && 0 <= j < sr[sc].len()
            && sr[sc][i] != sr[sc][j] && sr[sc][i] < upd.len() && sr[sc][j] < upd.len()
            && upd[sr[sc][i] as int].is_some() && upd[sr[sc][j] as int].is_some()
            implies upd[#[trigger] sr[sc][i] as int] != upd[#[trigger] sr[sc][j] as int] by {
        let a = sr[sc][i];
        let b = sr[sc][j];
        assert(sr[sc].contains(a) && sr[sc].contains(b));
        if a == role && b != role {
            if upd[b as int] == Some(actor) {
                assert(asg[b as int] == Some(actor));
                assert(actor_in_scene(sr, asg, sc, actor));
            }
        } else if b == role && a != role {
            if upd[a as int] == Some(actor) {
                assert(asg[a as int] == Some(actor));
                assert(actor_in_scene(sr, asg, sc, actor));
            }
        }
    }
}

/// A complete assignment that satisfies the invariant is a valid solution.
pub proof fn lemma_complete_valid(rpa: Seq<Seq<usize>>, sr: Seq<Seq<usize>>, asg: Seq<Option<usize>>)
    requires
        partial_valid(rpa, sr, asg),
        is_complete(asg),
    ensures
        valid_solution(rpa, sr, extract(asg)),
{
    let sol = extract(asg);
    assert(sol.len() == asg.len());
    assert forall|r: int| 0 <= r < sol.len() implies rpa[r].contains(#[trigger] sol[r]) by {
        assert(sol[r] == asg[r].unwrap());
    }
    assert forall|sc: int, i: int, j: int|
        0 <= sc < sr.len() && 0 <= i < sr[sc].len() && 0 <= j < sr[sc].len()
            && sr[sc][i] != sr[sc][j] && sr[sc][i] < sol.len() && sr[sc][j] < sol.len()
            implies sol[#[trigger] sr[sc][i] as int] != sol[#[trigger] sr[sc][j] as int] by {
        let a = sr[sc][i];
        let b = sr[sc][j];
        assert(asg[a as int].is_some() && asg[b as int].is_some());
        assert(asg[a as int] != asg[b as int]);
        assert(sol[a as int] == asg[a as int].unwrap() && sol[b as int] == asg[b as int].unwrap());
    }
}

proof fn lemma_explore_opts_valid(
    rpa: Seq<Seq<usize>>,
    sr: Seq<Seq<usize>>,
    asg: Seq<Option<usize>>,
    i: int,
)
    requires
        asg.len() == rpa.len(),
        asg.len() <= usize::MAX,
        partial_valid(rpa, sr, asg),
        0 <= i,
    ensures
        forall|t: int|
            0 <= t < explore_opts(rpa, sr, asg, i).len() ==> valid_solution(
                rpa,
                sr,
                #[trigger] explore_opts(rpa, sr, asg, i)[t],
            ),
    decreases count_unassigned(asg), all_options(rpa, sr, asg).len() - i,
{
    let opts = all_options(rpa, sr, asg);
    if i < opts.len() {
        lemma_options_props(rpa, sr, asg, asg.len() as int);
        let o = opts[i];
        let child = asg.update(o.role as int, Some(o.actor));
        lemma_option_preserves_valid(rpa, sr, asg, o.role, o.actor);
        let sub = if is_complete(child) {
            seq![extract(child)]
        } else {
            explore_from(rpa, sr, child)
        };
        if is_complete(child) {
            lemma_complete_valid(rpa, sr, child);
        } else {
            lemma_count_unassigned_update(asg, o.role as int, o.actor);
            lemma_explore_valid(rpa, sr, child);
        }
        lemma_explore_opts_valid(rpa, sr, asg, i + 1);
        let rest = explore_opts(rpa, sr, asg, i + 1);
        assert(explore_opts(rpa, sr, asg, i) == sub + rest);
        assert forall|t: int|
            0 <= t < explore_opts(rpa, sr, asg, i).len() implies valid_solution(
            rpa,
            sr,
            #[trigger] explore_opts(rpa, sr, asg, i)[t],
        ) by {
            if t < sub.len() {
                assert(explore_opts(rpa, sr, asg, i)[t] == sub[t]);
            } else {
                assert(explore_opts(rpa, sr, asg, i)[t] == rest[t - sub.len()]);
            }
        }
    }
}

/// Every assignment the search returns from an invariant-respecting state is
/// a complete valid solution.
pub proof fn lemma_explore_valid(rpa: Seq<Seq<usize>>, sr: Seq<Seq<usize>>, asg: Seq<Option<usize>>)
    requires
        asg.len() == rpa.len(),
        asg.len() <= usize::MAX,
        partial_valid(rpa, sr, asg),
    ensures
        forall|t: int|
            0 <= t < explore_from(rpa, sr, asg).len() ==> valid_solution(
                rpa,
                sr,
                #[trigger] explore_from(rpa, sr, asg)[t],
            ),
    decreases count_unassigned(asg), all_options(rpa, sr, asg).len() + 1,
{
    lemma_explore_opts_valid(rpa, sr, asg, 0);
    assert(explore_from(rpa, sr, asg) == explore_opts(rpa, sr, asg, 0));
    assert forall|t: int|
        0 <= t < explore_from(rpa, sr, asg).len() implies valid_solution(
        rpa,
        sr,
        #[trigger] explore_from(rpa, sr, asg)[t],
    ) by {
        assert(explore_from(rpa, sr, asg)[t] == explore_opts(rpa, sr, asg, 0)[t]);
    }
}

/// The fully unassigned state over `n` roles.
pub open spec fn unassigned(n: nat) -> Seq<Option<usize>> {
    Seq::new(n, |i: int| None::<usize>)
}

/// Scene-disjointness: in every solution the search returns, the actors
/// bound to any scene's roles are pairwise distinct.
pub proof fn lemma_solutions_scene_disjoint(rpa: Seq<Seq<usize>>, sr: Seq<Seq<usize>>)
    requires
        rpa.len() <= usize::MAX,
    ensures
        forall|t: int|
            0 <= t < explore_from(rpa, sr, unassigned(rpa.len())).len()
                ==> solution_scene_disjoint(
                sr,
                #[trigger] explore_from(rpa, sr, unassigned(rpa.len()))[t],
            ),
{
    lemma_explore_valid(rpa, sr, unassigned(rpa.len()));
}

/// Coverage: every solution the search returns binds exactly one actor to
/// every role, drawn from that role's potential set.
pub proof fn lemma_solutions_cover(rpa: Seq<Seq<usize>>, sr: Seq<Seq<usize>>)
    requires
        rpa.len() <= usize::MAX,
    ensures
        forall|t: int|
            0 <= t < explore_from(rpa, sr, unassigned(rpa.len())).len() ==> solution_covers(
                rpa,
                #[trigger] explore_from(rpa, sr, unassigned(rpa.len()))[t],
            ),
{
    lemma_explore_valid(rpa, sr, unassigned(rpa.len()));
}

/// The partial assignment that a complete solution vector denotes.
pub open spec fn assigned_of(sol: Seq<usize>) -> Seq<Option<usize>> {
    sol.map_values(|a: usize| Some(a))
}

/// The secondary global rule: actor `0` and actor `1` never share a scene.
pub open spec fn leads_disjoint(sr: Seq<Seq<usize>>, sol: Seq<usize>) -> bool {
    !exists|sc: int|
        0 <= sc < sr.len() && #[trigger] actor_in_scene(sr, assigned_of(sol), sc, 0)
            && actor_in_scene(sr, assigned_of(sol), sc, 1)
}

/// Whether the secondary rule holds of one solution: the scenes where actor
/// `0` plays and the scenes where actor `1` plays are disjoint.
pub fn apply_actor_filter(solution: &Vec<usize>, scenes_roles: &Vec<Vec<usize>>) -> (r: bool)
    ensures
        r == leads_disjoint(views_of(scenes_roles@), solution@),
{
    let ghost sr_v = views_of(scenes_roles@);
    let mut roles_assigned_actors: Vec<Option<usize>> = Vec::new();
    let mut i: usize = 0;
    while i < solution.len()
        invariant
            i <= solution.len(),
            roles_assigned_actors@ == assigned_of(solution@).take(i as int),
        decreases solution.len() - i,
    {
        roles_assigned_actors.push(Some(solution[i]));
        proof {
            assert(roles_assigned_actors@ =~= assigned_of(solution@).take(i + 1));
        }
        i += 1;
    }
    proof {
        assert(roles_assigned_actors@ =~= assigned_of(solution@));
    }
    let scenes_1 = actor_in_scenes(scenes_roles, &roles_assigned_actors, 0);
    let scenes_2 = actor_in_scenes(scenes_roles, &roles_assigned_actors, 1);
    let n_scenes = scenes_roles.len();
    proof {
        assert(sr_v.len() == n_scenes);
    }
    let clash = has_common_element(&scenes_1, &scenes_2);
    proof {
        let asg = assigned_of(solution@);
        if clash {
            let x = choose|x: usize| scenes_1@.contains(x) && scenes_2@.contains(x);
            assert(actor_in_scene(sr_v, asg, x as int, 0) && actor_in_scene(sr_v, asg, x as int, 1));
        } else {
            if exists|sc: int|
                0 <= sc < sr_v.len() && #[trigger] actor_in_scene(sr_v, asg, sc, 0)
                    && actor_in_scene(sr_v, asg, sc, 1) {
                let sc = choose|sc: int|
                    0 <= sc < sr_v.len() && #[trigger] actor_in_scene(sr_v, asg, sc, 0)
                        && actor_in_scene(sr_v, asg, sc, 1);
                assert(scenes_1@.contains(sc as usize) && scenes_2@.contains(sc as usize));
                assert(common_element(scenes_1@, scenes_2@));
            }
        }
    }
    !clash
}

/// The solutions that pass the secondary rule, in their original order.
pub open spec fn filter_solutions_spec(sr: Seq<Seq<usize>>, sols: Seq<Seq<usize>>) -> Seq<
    Seq<usize>,
>
    decreases sols.len(),
{
    if sols.len() == 0 {
        Seq::empty()
    } else {
        let rest = filter_solutions_spec(sr, sols.drop_last());
        if leads_disjoint(sr, sols.last()) {
            rest.push(sols.last())
        } else {
            rest
        }
    }
}

/// Filter correctness: every solution that survives the secondary filter
/// keeps actor `0` and actor `1` out of any common scene, and came from the
/// input sequence.
pub proof fn lemma_filter_correct(sr: Seq<Seq<usize>>, sols: Seq<Seq<usize>>)
    ensures
        forall|t: int|
            0 <= t < filter_solutions_spec(sr, sols).len() ==> leads_disjoint(
                sr,
                #[trigger] filter_solutions_spec(sr, sols)[t],
            ),
        forall|t: int|
            0 <= t < filter_solutions_spec(sr, sols).len() ==> sols.contains(
                #[trigger] filter_solutions_spec(sr, sols)[t],
            ),
    decreases sols.len(),
{
    if sols.len() > 0 {
        lemma_filter_correct(sr, sols.drop_last());
        let rest = filter_solutions_spec(sr, sols.drop_last());
        let cur = filter_solutions_spec(sr, sols);
        assert forall|t: int|
            0 <= t < cur.len() implies leads_disjoint(sr, #[trigger] cur[t]) && sols.contains(
            cur[t],
        ) by {
            if leads_disjoint(sr, sols.last()) && t == rest.len() {
                assert(cur[t] == sols.last());
                assert(sols[sols.len() - 1] == sols.last());
            } else {
                assert(cur[t] == rest[t]);
                assert(sols.drop_last().contains(rest[t]));
                let k = choose|k: int|
                    0 <= k < sols.drop_last().len() && sols.drop_last()[k] == rest[t];
                assert(sols[k] == rest[t]);
            }
        }
    }
}

/// Apply the secondary rule to every enumerated solution.
pub fn filter_solutions(solutions: &Vec<Vec<usize>>, scenes_roles: &Vec<Vec<usize>>) -> (r: Vec<
    Vec<usize>,
>)
    ensures
        views_of(r@) == filter_solutions_spec(views_of(scenes_roles@), views_of(solutions@)),
{
    let ghost sr_v = views_of(scenes_roles@);
    let ghost sols_v = views_of(solutions@);
    let mut out: Vec<Vec<usize>> = Vec::new();
    let mut i: usize = 0;
    while i < solutions.len()
        invariant
            sr_v == views_of(scenes_roles@),
            sols_v == views_of(solutions@),
            i <= solutions.len(),
            views_of(out@) == filter_solutions_spec(sr_v, sols_v.take(i as int)),
        decreases solutions.len() - i,
    {
        let ghost pre = views_of(out@);
        let keep = apply_actor_filter(&solutions[i], scenes_roles);
        if keep {
            let sol = clone_solution(&solutions[i]);
            out.push(sol);
        }
        proof {
            let taken = sols_v.take(i + 1);
            assert(taken.drop_last() =~= sols_v.take(i as int));
            assert(taken.last() == sols_v[i as int]);
            if keep {
                assert(views_of(out@) =~= pre.push(sols_v[i as int]));
            }
            assert(views_of(out@) =~= filter_solutions_spec(sr_v, taken));
        }
        i += 1;
    }
    proof {
        assert(sols_v.take(sols_v.len() as int) =~= sols_v);
    }
    out
}

fn clone_solution(v: &Vec<usize>) -> (r: Vec<usize>)
    ensures
        r@ == v@,
{
    let mut out: Vec<usize> = Vec::new();
    let mut i: usize = 0;
    while i < v.len()
        invariant
            i <= v.len(),
            out@ == v@.take(i as int),
        decreases v.len() - i,
    {
        out.push(v[i]);
        proof {
            assert(out@ =~= v@.take(i + 1));
        }
        i += 1;
    }
    proof {
        assert(out@ =~= v@);
    }
    out
}

/// The maximal digit runs of a text, in order, each parsed as a machine word
/// where it fits. Named here; only the regex wrapper below says what it is.
pub uninterp spec fn digit_runs_of(s: Seq<char>) -> Seq<Option<usize>>;

/// Relies on `regex::Regex::find_iter` with the pattern `\d+`: it yields the
/// maximal runs of digit characters of the input, left to right, and
/// `str::parse::<usize>` turns each run into a number where it fits.
#[verifier::external_body]
fn find_numbers(input: &str) -> (r: Vec<Option<usize>>)
    ensures
        r@ == digit_runs_of(input@),
{
    let re = regex::Regex::new(r"\d+").unwrap();
    re.find_iter(input).map(|m| m.as_str().parse::<usize>().ok()).collect()
}

/// The runs that parsed, in order.
pub open spec fn compacted(runs: Seq<Option<usize>>) -> Seq<usize>
    decreases runs.len(),
{
    if runs.len() == 0 {
        Seq::empty()
    } else {
        compacted(runs.drop_last()) + (if runs.last() is Some {
            seq![runs.last().unwrap()]
        } else {
            Seq::empty()
        })
    }
}

/// Fold the numbers after the three counts into groups: a count, then that
/// many 1-indexed ids, each stored 0-indexed. A zero id is malformed.
pub open spec fn groups_rec(
    nums: Seq<usize>,
    i: int,
    acc: Seq<Seq<usize>>,
    left: nat,
) -> Option<Seq<Seq<usize>>>
    decreases nums.len() - i,
{
    if i < 0 || i >= nums.len() {
        Some(acc)
    } else if left == 0 {
        groups_rec(nums, i + 1, acc.push(Seq::empty()), nums[i] as nat)
    } else if nums[i] == 0 {
        None
    } else {
        groups_rec(
            nums,
            i + 1,
            acc.update(acc.len() - 1, acc.last().push((nums[i] - 1) as usize)),
            (left - 1) as nat,
        )
    }
}

/// The groups encoded by `nums`, or `None` when a zero id occurs.
pub open spec fn build_groups(nums: Seq<usize>) -> Option<Seq<Seq<usize>>> {
    groups_rec(nums, 0, Seq::empty(), 0)
}

/// At most the first `n` groups.
pub open spec fn take_at_most(g: Seq<Seq<usize>>, n: int) -> Seq<Seq<usize>> {
    if n <= g.len() {
        g.take(n)
    } else {
        g
    }
}

/// All but at most the first `n` groups.
pub open spec fn skip_at_most(g: Seq<Seq<usize>>, n: int) -> Seq<Seq<usize>> {
    if n <= g.len() {
        g.skip(n)
    } else {
        Seq::empty()
    }
}

/// What parsing a casting instance from the digit runs of the input yields:
/// the potential-actor sets and the scenes' role sets, or the first missing
/// or malformed field.
pub open spec fn spec_parse_casting(runs: Seq<Option<usize>>) -> Result<
    (Seq<Seq<usize>>, Seq<Seq<usize>>),
    Seq<char>,
> {
    let nums = compacted(runs);
    if nums.len() < 1 {
        Err("Expected number of roles missing"@)
    } else if nums.len() < 2 {
        Err("Expected number of scenes missing"@)
    } else if nums.len() < 3 {
        Err("Expected number of actors missing"@)
    } else {
        match build_groups(nums.skip(3)) {
            None => Err("Expected a positive id, found 0"@),
            Some(groups) => {
                let n = nums[0] as int;
                let s = nums[1] as int;
                Ok((take_at_most(groups, n), take_at_most(skip_at_most(groups, n), s)))
            },
        }
    }
}

/// Reads a casting instance: role, scene and actor counts, one line of
/// potential actors per role, one line of roles per scene, ids 1-indexed.
pub fn parse_input(input: &str) -> (r: Result<(Vec<Vec<usize>>, Vec<Vec<usize>>), String>)
    ensures
        match r {
            Ok(p) => spec_parse_casting(digit_runs_of(input@)) == Ok::<_, Seq<char>>(
                (views_of(p.0@), views_of(p.1@)),
            ),
            Err(e) => spec_parse_casting(digit_runs_of(input@)) is Err && e@ == spec_parse_casting(
                digit_runs_of(input@),
            )->Err_0,
        },
{
    let ghost runs_v = digit_runs_of(input@);
    let runs = find_numbers(input);
    let mut numbers: Vec<usize> = Vec::new();
    let mut i: usize = 0;
    while i < runs.len()
        invariant
            i <= runs@.len(),
            runs@ == runs_v,
            numbers@ == compacted(runs@.take(i as int)),
        decreases runs@.len() - i,
    {
        let ghost pre = numbers@;
        if let Some(x) = runs[i] {
            numbers.push(x);
        }
        proof {
            let taken = runs_v.take(i + 1);
            assert(taken.drop_last() =~= runs_v.take(i as int));
            assert(taken.last() == runs_v[i as int]);
            if runs_v[i as int] is Some {
                assert(numbers@ =~= pre + seq![runs_v[i as int].unwrap()]);
            } else {
                assert(numbers@ =~= pre + Seq::<usize>::empty());
            }
        }
        i += 1;
    }
    proof {
        assert(runs_v.take(runs_v.len() as int) =~= runs_v);
    }
    if numbers.len() < 1 {
        return Err("Expected number of roles missing".to_owned());
    }
    if numbers.len() < 2 {
        return Err("Expected number of scenes missing".to_owned());
    }
    if numbers.len() < 3 {
        return Err("Expected number of actors missing".to_owned());
    }
    let n = numbers[0];
    let s = numbers[1];
    let ghost nums = numbers@;
    let ghost tail = numbers@.skip(3);
    let mut groups: Vec<Vec<usize>> = Vec::new();
    let mut left: usize = 0;
    let mut j: usize = 3;
    proof {
        assert(views_of(groups@) =~= Seq::<Seq<usize>>::empty());
    }
    while j < numbers.len()
        invariant
            nums == numbers@,
            runs_v == digit_runs_of(input@),
            nums == compacted(runs_v),
            nums.len() >= 3,
            n == nums[0] && s == nums[1],
            tail == nums.skip(3),
            3 <= j <= nums.len(),
            groups_rec(tail, j - 3, views_of(groups@), left as nat) == build_groups(tail),
            left > 0 ==> groups@.len() > 0,
        decreases numbers@.len() - j,
    {
        let num = numbers[j];
        let ghost pre_views = views_of(groups@);
        let ghost pre_left = left as nat;
        proof {
            assert(tail[j - 3] == nums[j as int]);
        }
        if left == 0 {
            left = num;
            groups.push(Vec::new());
            proof {
                assert(views_of(groups@) =~= pre_views.push(Seq::empty()));
                assert(groups_rec(tail, j - 3, pre_views, 0) == groups_rec(
                    tail,
                    j - 2,
                    pre_views.push(Seq::empty()),
                    tail[j - 3] as nat,
                ));
            }
        } else {
            if num == 0 {
                proof {
                    assert(groups_rec(tail, j - 3, pre_views, pre_left) == None::<Seq<Seq<usize>>>);
                }
                return Err("Expected a positive id, found 0".to_owned());
            }
            let mut last = groups.pop().unwrap();
            let ghost popped = views_of(groups@);
            last.push(num - 1);
            groups.push(last);
            left -= 1;
            proof {
                assert(popped =~= pre_views.drop_last());
                assert(views_of(groups@) =~= pre_views.update(
                    pre_views.len() - 1,
                    pre_views.last().push((nums[j as int] - 1) as usize),
                ));
                assert(groups_rec(tail, j - 3, pre_views, pre_left) == groups_rec(
                    tail,
                    j - 2,
                    pre_views.update(
                        pre_views.len() - 1,
                        pre_views.last().push((tail[j - 3] - 1) as usize),
                    ),
                    (pre_left - 1) as nat,
                ));
            }
        }
        j += 1;
    }
    let mut rpa: Vec<Vec<usize>> = Vec::new();
    let mut sr: Vec<Vec<usize>> = Vec::new();
    let mut k: usize = 0;
    let ghost all_groups = views_of(groups@);
    while k < groups.len() && k < n
        invariant
            all_groups == views_of(groups@),
            k <= groups@.len(),
            k <= n,
            views_of(rpa@) == all_groups.take(k as int),
        decreases groups@.len() - k,
    {
        let ghost pre_r = views_of(rpa@);
        rpa.push(clone_solution(&groups[k]));
        proof {
            assert(views_of(rpa@) =~= pre_r.push(all_groups[k as int]));
            assert(all_groups.take(k + 1) =~= all_groups.take(k as int).push(
                all_groups[k as int],
            ));
        }
        k += 1;
    }
    proof {
        if n <= all_groups.len() {
            assert(k == n);
        } else {
            assert(k == all_groups.len());
            assert(all_groups.take(k as int) =~= all_groups);
        }
        assert(views_of(rpa@) == take_at_most(all_groups, n as int));
    }
    let mut k2: usize = k;
    let mut taken: usize = 0;
    while k2 < groups.len() && taken < s
        invariant
            all_groups == views_of(groups@),
            k <= k2 <= groups@.len(),
            taken <= s,
            k2 == k + taken,
            k == (if n <= all_groups.len() {
                n as int
            } else {
                all_groups.len() as int
            }),
            views_of(sr@) == skip_at_most(all_groups, n as int).take(taken as int),
        decreases groups@.len() - k2,
    {
        let ghost pre_s = views_of(sr@);
        sr.push(clone_solution(&groups[k2]));
        proof {
            let sk = skip_at_most(all_groups, n as int);
            assert(sk[taken as int] == all_groups[k2 as int]);
            assert(views_of(sr@) =~= pre_s.push(all_groups[k2 as int]));
            assert(sk.take(taken + 1) =~= sk.take(taken as int).push(sk[taken as int]));
        }
        k2 += 1;
        taken += 1;
    }
    proof {
        let sk = skip_at_most(all_groups, n as int);
        if s as int <= sk.len() {
            assert(taken == s);
        } else {
            assert(k2 == all_groups.len());
            assert(sk.take(taken as int) =~= sk);
        }
        assert(views_of(sr@) == take_at_most(sk, s as int));
    }
    Ok((rpa, sr))
}

/// Parse a casting instance, enumerate every valid assignment, and keep those
/// on which the two lead actors share no scene.
pub fn solve(input: &str) -> (r: Result<Vec<Vec<usize>>, String>)
    ensures
        match r {
            Ok(sols) => spec_parse_casting(digit_runs_of(input@)) is Ok && views_of(sols@)
                == filter_solutions_spec(
                spec_parse_casting(digit_runs_of(input@))->Ok_0.1,
                explore_from(
                    spec_parse_casting(digit_runs_of(input@))->Ok_0.0,
                    spec_parse_casting(digit_runs_of(input@))->Ok_0.1,
                    unassigned(spec_parse_casting(digit_runs_of(input@))->Ok_0.0.len()),
                ),
            ),
            Err(e) => spec_parse_casting(digit_runs_of(input@)) is Err && e@ == spec_parse_casting(
                digit_runs_of(input@),
            )->Err_0,
        },
{
    let (roles_potential_actors, scenes_roles) = match parse_input(input) {
        Ok(p) => p,
        Err(e) => {
            return Err(e);
        },
    };
    let mut roles_assigned_actors: Vec<Option<usize>> = Vec::new();
    let mut i: usize = 0;
    while i < roles_potential_actors.len()
        invariant
            i <= roles_potential_actors@.len(),
            roles_assigned_actors@ == unassigned(i as nat),
        decreases roles_potential_actors@.len() - i,
    {
        roles_assigned_actors.push(None);
        proof {
            assert(roles_assigned_actors@ =~= unassigned((i + 1) as nat));
        }
        i += 1;
    }
    let all_solutions = explore_options_recursive(
        &roles_potential_actors,
        &scenes_roles,
        &roles_assigned_actors,
    );
    let solutions = filter_solutions(&all_solutions, &scenes_roles);
    Ok(solutions)
}

/// What the whole pipeline returns: every solution that survives the filter
/// is a complete valid assignment on which the two leads share no scene.
pub proof fn lemma_solve_solutions_valid(rpa: Seq<Seq<usize>>, sr: Seq<Seq<usize>>)
    requires
        rpa.len() <= usize::MAX,
    ensures
        forall|t: int|
            0 <= t < filter_solutions_spec(
                sr,
                explore_from(rpa, sr, unassigned(rpa.len())),
            ).len() ==> {
                let sol = #[trigger] filter_solutions_spec(
                    sr,
                    explore_from(rpa, sr, unassigned(rpa.len())),
                )[t];
                valid_solution(rpa, sr, sol) && leads_disjoint(sr, sol)
            },
{
    let sols = explore_from(rpa, sr, unassigned(rpa.len()));
    let kept = filter_solutions_spec(sr, sols);
    lemma_explore_valid(rpa, sr, unassigned(rpa.len()));
    lemma_filter_correct(sr, sols);
    assert forall|t: int| 0 <= t < kept.len() implies {
        let sol = #[trigger] kept[t];
        valid_solution(rpa, sr, sol) && leads_disjoint(sr, sol)
    } by {
        assert(sols.contains(kept[t]));
        let k = choose|k: int| 0 <= k < sols.len() && sols[k] == kept[t];
        assert(valid_solution(rpa, sr, sols[k]));
    }
}

/// The edges contributed by one scene from position `i`, partners from `j` on.
pub open spec fn scene_pairs_row(scene: Seq<usize>, i: int, j: int) -> Seq<(usize, usize)>
    decreases scene.len() - j,
{
    if j >= scene.len() {
        Seq::empty()
    } else {
        seq![(scene[i], scene[j])] + scene_pairs_row(scene, i, j + 1)
    }
}

/// The edges contributed by one scene from position `i` on.
pub open spec fn scene_pairs_rows(scene: Seq<usize>, i: int) -> Seq<(usize, usize)>
    decreases scene.len() - i,
{
    if i >= scene.len() {
        Seq::empty()
    } else {
        scene_pairs_row(scene, i, i + 1) + scene_pairs_rows(scene, i + 1)
    }
}

/// Every unordered pair of roles that co-occur in the scene, one edge per
/// pair of positions, in position order.
pub open spec fn scene_pairs(scene: Seq<usize>) -> Seq<(usize, usize)> {
    scene_pairs_rows(scene, 0)
}

/// The edges of the first `k` scenes, in scene order.
pub open spec fn edges_upto(sr: Seq<Seq<usize>>, k: int) -> Seq<(usize, usize)>
    decreases k,
{
    if k <= 0 {
        Seq::empty()
    } else {
        edges_upto(sr, k - 1) + scene_pairs(sr[k - 1])
    }
}

/// Every co-occurrence edge of the instance.
pub open spec fn all_edges(sr: Seq<Seq<usize>>) -> Seq<(usize, usize)> {
    edges_upto(sr, sr.len() as int)
}

/// A graph-coloring instance projected from a casting instance: one vertex
/// per role, one edge per co-occurring role pair per scene, one colour per
/// actor of the actor universe.
pub struct GraphColoringInstance {
    pub n_vertices: usize,
    pub n_colors: usize,
    pub edges: Vec<(usize, usize)>,
}

/// Project a casting instance onto graph coloring: vertices are the roles,
/// edges join roles that share a scene, and the colour count is one more than
/// the largest actor id any potential set mentions. Some potential set must
/// hold an actor — every role carries a non-empty potential set, and querying
/// an instance without one is a contract violation, not an input error — and
/// no actor id may fill the machine word, so that the colour count fits.
pub fn reduce_to_graph_coloring(
    roles_potential_actors: &Vec<Vec<usize>>,
    scenes_roles: &Vec<Vec<usize>>,
) -> (g: GraphColoringInstance)
    requires
        exists|ri: int|
            0 <= ri < roles_potential_actors@.len() && (#[trigger] roles_potential_actors@[ri]@).len() > 0,
        forall|ri: int, kx: int|
            0 <= ri < roles_potential_actors@.len() && 0 <= kx
                < roles_potential_actors@[ri]@.len() ==> (
            #[trigger] roles_potential_actors@[ri]@[kx]) < usize::MAX,
    ensures
        g.n_vertices == roles_potential_actors@.len(),
        g.edges@ == all_edges(views_of(scenes_roles@)),
        g.n_colors >= 1,
        exists|ri: int, kx: int|
            0 <= ri < roles_potential_actors@.len() && 0 <= kx
                < roles_potential_actors@[ri]@.len() && (
            #[trigger] roles_potential_actors@[ri]@[kx]) + 1 == g.n_colors,
        forall|ri: int, kx: int|
            0 <= ri < roles_potential_actors@.len() && 0 <= kx
                < roles_potential_actors@[ri]@.len() ==> (
            #[trigger] roles_potential_actors@[ri]@[kx]) < g.n_colors,
{
    let ghost rpa_v = roles_potential_actors@;
    let mut max_actor: Option<usize> = None;
    let mut ri: usize = 0;
    while ri < roles_potential_actors.len()
        invariant
            rpa_v == roles_potential_actors@,
            ri <= rpa_v.len(),
            match max_actor {
                Some(v) => (exists|a: int, b: int|
                    0 <= a < ri && 0 <= b < rpa_v[a]@.len() && (#[trigger] rpa_v[a]@[b]) == v)
                    && (forall|a: int, b: int|
                    0 <= a < ri && 0 <= b < rpa_v[a]@.len() ==> (#[trigger] rpa_v[a]@[b]) <= v),
                None => forall|a: int| 0 <= a < ri ==> (#[trigger] rpa_v[a]@).len() == 0,
            },
        decreases rpa_v.len() - ri,
    {
        let row = &roles_potential_actors[ri];
        let mut kx: usize = 0;
        while kx < row.len()
            invariant
                rpa_v == roles_potential_actors@,
                ri < rpa_v.len(),
                row@ == rpa_v[ri as int]@,
                kx <= row@.len(),
                match max_actor {
                    Some(v) => (exists|a: int, b: int|
                        (0 <= a < ri && 0 <= b < rpa_v[a]@.len() && (#[trigger] rpa_v[a]@[b]) == v)
                            || (a == ri && 0 <= b < kx && rpa_v[a]@[b] == v)) && (forall|
                        a: int,
                        b: int,
                    |
                        0 <= a < ri && 0 <= b < rpa_v[a]@.len() ==> (#[trigger] rpa_v[a]@[b]) <= v)
                        && (forall|b: int| 0 <= b < kx ==> (#[trigger] rpa_v[ri as int]@[b]) <= v),
                    None => (forall|a: int| 0 <= a < ri ==> (#[trigger] rpa_v[a]@).len() == 0)
                        && kx == 0,
                },
            decreases row@.len() - kx,
        {
            let x = row[kx];
            match max_actor {
                Some(v) => {
                    if x > v {
                        max_actor = Some(x);
                    }
                },
                None => {
                    max_actor = Some(x);
                },
            }
            kx += 1;
        }
        ri += 1;
    }
    let v = match max_actor {
        Some(v) => v,
        None => {
            proof {
                let wi = choose|wi: int|
                    0 <= wi < rpa_v.len() && (#[trigger] rpa_v[wi]@).len() > 0;
                assert(rpa_v[wi]@.len() == 0);
            }
            0
        },
    };
    proof {
        let (a, b) = choose|a: int, b: int|
            0 <= a < rpa_v.len() && 0 <= b < rpa_v[a]@.len() && (#[trigger] rpa_v[a]@[b]) == v;
        assert(rpa_v[a]@[b] < usize::MAX);
    }
    let n_colors = v + 1;
    let ghost sr_v = views_of(scenes_roles@);
    let mut edges: Vec<(usize, usize)> = Vec::new();
    let mut k: usize = 0;
    proof {
        assert(edges@ =~= Seq::<(usize, usize)>::empty());
    }
    while k < scenes_roles.len()
        invariant
            sr_v == views_of(scenes_roles@),
            k <= sr_v.len(),
            edges@ == edges_upto(sr_v, k as int),
        decreases sr_v.len() - k,
    {
        let scene = &scenes_roles[k];
        let ghost sv = scene@;
        let ghost base = edges@;
        let mut i: usize = 0;
        while i < scene.len()
            invariant
                scene@ == sv,
                i <= sv.len(),
                base + scene_pairs_rows(sv, 0) == edges@ + scene_pairs_rows(sv, i as int),
            decreases sv.len() - i,
        {
            let mut jx: usize = i + 1;
            let ghost row_base = edges@;
            while jx < scene.len()
                invariant
                    scene@ == sv,
                    i < sv.len(),
                    i < jx <= sv.len(),
                    row_base + scene_pairs_row(sv, i as int, i + 1) == edges@ + scene_pairs_row(
                        sv,
                        i as int,
                        jx as int,
                    ),
                decreases sv.len() - jx,
            {
                let ghost pre = edges@;
                edges.push((scene[i], scene[jx]));
                proof {
                    assert(scene_pairs_row(sv, i as int, jx as int) == seq![
                        (sv[i as int], sv[jx as int]),
                    ] + scene_pairs_row(sv, i as int, jx + 1));
                    assert(pre + (seq![(sv[i as int], sv[jx as int])] + scene_pairs_row(
                        sv,
                        i as int,
                        jx + 1,
                    )) =~= edges@ + scene_pairs_row(sv, i as int, jx + 1));
                }
                jx += 1;
            }
            proof {
                assert(scene_pairs_row(sv, i as int, sv.len() as int) =~= Seq::<(
                    usize,
                    usize,
                )>::empty());
                assert(edges@ + Seq::<(usize, usize)>::empty() =~= edges@);
                assert(row_base + scene_pairs_row(sv, i as int, i + 1) == edges@);
                assert(scene_pairs_rows(sv, i as int) == scene_pairs_row(sv, i as int, i + 1)
                    + scene_pairs_rows(sv, i + 1));
                assert(row_base + (scene_pairs_row(sv, i as int, i + 1) + scene_pairs_rows(
                    sv,
                    i + 1,
                )) =~= (row_base + scene_pairs_row(sv, i as int, i + 1)) + scene_pairs_rows(
                    sv,
                    i + 1,
                ));
            }
            i += 1;
        }
        proof {
            assert(scene_pairs_rows(sv, sv.len() as int) =~= Seq::<(usize, usize)>::empty());
            assert(edges@ + Seq::<(usize, usize)>::empty() =~= edges@);
            assert(base + scene_pairs(sv) =~= edges@);
            assert(sv == sr_v[k as int]);
        }
        k += 1;
    }
    GraphColoringInstance { n_vertices: roles_potential_actors.len(), n_colors, edges }
}

} // verus!
