use vstd::prelude::*;
use vstd::set_lib::{lemma_int_range, lemma_len_subset, set_int_range};
use crate::compile::spec_compile;
use crate::inst::{inst_ok, wf_program, Instruction};
use crate::parse::ParseError;

verus! {

/// One jump or split leads from address `a` to address `b`.
pub open spec fn eps_step(p: Seq<Instruction>, a: int, b: int) -> bool {
    0 <= a < p.len() && match p[a] {
        Instruction::Jmp(t) => b == t,
        Instruction::Split(x, y) => b == x || b == y,
        _ => false,
    }
}

/// `path` is a walk through jumps and splits.
pub open spec fn is_path(p: Seq<Instruction>, path: Seq<int>) -> bool {
    &&& path.len() > 0
    &&& forall|i: int| 0 <= i < path.len() - 1 ==> #[trigger] eps_step(p, path[i], path[i + 1])
}

/// Jumps and splits lead from `a` to `b` (in zero or more steps).
pub open spec fn reachable(p: Seq<Instruction>, a: int, b: int) -> bool {
    exists|path: Seq<int>| #[trigger] is_path(p, path) && path[0] == a && path.last() == b
}

/// An instruction a thread can wait at: one that consumes or accepts.
pub open spec fn is_thread(ins: Instruction) -> bool {
    ins is Match || ins is Succeed
}

/// The epsilon-closure of `a`: the consuming or accepting addresses that
/// jumps and splits lead to from `a`.
pub open spec fn closure(p: Seq<Instruction>, a: int) -> Set<int> {
    Set::new(|b: int| 0 <= b < p.len() && is_thread(p[b]) && reachable(p, a, b))
}

/// The threads alive after the threads `live` read the character `c`.
pub open spec fn step(p: Seq<Instruction>, live: Set<int>, c: char) -> Set<int> {
    Set::new(
        |b: int|
            exists|a: int|
                #![trigger live.contains(a), closure(p, a + 1).contains(b)]
                live.contains(a) && 0 <= a < p.len() && p[a] is Match && p[a]->Match_0.accepts(c)
                    && closure(p, a + 1).contains(b),
    )
}

/// The threads alive after the program has read `w` from its start.
pub open spec fn states(p: Seq<Instruction>, w: Seq<char>) -> Set<int>
    decreases w.len(),
{
    if w.len() == 0 {
        closure(p, 0)
    } else {
        step(p, states(p, w.drop_last()), w.last())
    }
}

/// The program matches exactly `w`.
pub open spec fn accepts(p: Seq<Instruction>, w: Seq<char>) -> bool {
    exists|a: int| #[trigger] states(p, w).contains(a) && 0 <= a < p.len() && p[a] is Succeed
}

/// Unanchored search: some piece of `t` that starts before its end is
/// matched exactly.
pub open spec fn spec_matches(p: Seq<Instruction>, t: Seq<char>) -> bool {
    exists|s: int, e: int| 0 <= s < t.len() && s <= e <= t.len() && #[trigger] accepts(p, t.subrange(s, e))
}

/// The addresses held in `v`.
pub open spec fn addrs(v: Seq<usize>) -> Set<int> {
    Set::new(|b: int| exists|k: int| 0 <= k < v.len() && v[k] as int == b)
}

proof fn lemma_addrs_push(v: Seq<usize>, x: usize)
    ensures
        addrs(v.push(x)) == addrs(v).insert(x as int),
{
    assert forall|b: int| addrs(v.push(x)).contains(b) <==> addrs(v).insert(x as int).contains(b) by {
        if addrs(v).contains(b) {
            let k = choose|k: int| 0 <= k < v.len() && v[k] as int == b;
            assert(v.push(x)[k] == v[k]);
        }
        if b == x as int {
            assert(v.push(x)[v.len() as int] == x);
        }
        if addrs(v.push(x)).contains(b) {
            let k = choose|k: int| 0 <= k < v.push(x).len() && v.push(x)[k] as int == b;
            if k < v.len() {
                assert(v[k] as int == b);
            }
        }
    }
    assert(addrs(v.push(x)) =~= addrs(v).insert(x as int));
}

proof fn lemma_addrs_pop(v: Seq<usize>)
    requires
        v.len() > 0,
        v.no_duplicates(),
    ensures
        addrs(v.drop_last()) == addrs(v).remove(v.last() as int),
        v.drop_last().no_duplicates(),
{
    let d = v.drop_last();
    assert forall|b: int| addrs(d).contains(b) <==> addrs(v).remove(v.last() as int).contains(b) by {
        if addrs(d).contains(b) {
            let k = choose|k: int| 0 <= k < d.len() && d[k] as int == b;
            assert(v[k] == d[k]);
            assert(v[k] != v[v.len() - 1]);
        }
        if addrs(v).remove(v.last() as int).contains(b) {
            let k = choose|k: int| 0 <= k < v.len() && v[k] as int == b;
            assert(k != v.len() - 1);
            assert(d[k] == v[k]);
        }
    }
    assert(addrs(d) =~= addrs(v).remove(v.last() as int));
}

/// Distinct addresses: as many as the vector holds.
proof fn lemma_addrs_len(v: Seq<usize>)
    requires
        v.no_duplicates(),
    ensures
        addrs(v).finite(),
        addrs(v).len() == v.len(),
    decreases v.len(),
{
    if v.len() == 0 {
        assert(addrs(v) =~= Set::<int>::empty());
    } else {
        let d = v.drop_last();
        lemma_addrs_len(d);
        lemma_addrs_push(d, v.last());
        assert(d.push(v.last()) =~= v);
        assert(!addrs(d).contains(v.last() as int)) by {
            if addrs(d).contains(v.last() as int) {
                let k = choose|k: int| 0 <= k < d.len() && d[k] as int == v.last() as int;
                assert(v[k] == v[v.len() - 1]);
            }
        }
    }
}

/// A set that holds `a` and is closed under jumps and splits holds all that
/// they reach from `a`.
proof fn lemma_closed_reach(p: Seq<Instruction>, vis: Set<int>, a: int, b: int)
    requires
        vis.contains(a),
        forall|x: int, y: int| vis.contains(x) && #[trigger] eps_step(p, x, y) ==> vis.contains(y),
        reachable(p, a, b),
    ensures
        vis.contains(b),
{
    let path = choose|path: Seq<int>| #[trigger] is_path(p, path) && path[0] == a && path.last() == b;
    lemma_path_within(p, vis, path, path.len() - 1);
}

proof fn lemma_path_within(p: Seq<Instruction>, vis: Set<int>, path: Seq<int>, i: int)
    requires
        is_path(p, path),
        vis.contains(path[0]),
        forall|x: int, y: int| vis.contains(x) && #[trigger] eps_step(p, x, y) ==> vis.contains(y),
        0 <= i < path.len(),
    ensures
        vis.contains(path[i]),
    decreases i,
{
    if i > 0 {
        lemma_path_within(p, vis, path, i - 1);
        assert(eps_step(p, path[i - 1], path[i - 1 + 1]));
    }
}

/// One more jump or split after a path is still a path.
proof fn lemma_reach_extend(p: Seq<Instruction>, a: int, b: int, c: int)
    requires
        reachable(p, a, b),
        eps_step(p, b, c),
    ensures
        reachable(p, a, c),
{
    let path = choose|path: Seq<int>| #[trigger] is_path(p, path) && path[0] == a && path.last() == b;
    let longer = path.push(c);
    assert forall|i: int| 0 <= i < longer.len() - 1 implies #[trigger] eps_step(p, longer[i], longer[i + 1]) by {
        if i < path.len() - 1 {
            assert(eps_step(p, path[i], path[i + 1]));
        }
    }
    assert(is_path(p, longer));
}

/// Every address reaches itself.
proof fn lemma_reach_self(p: Seq<Instruction>, a: int)
    ensures
        reachable(p, a, a),
{
    assert(is_path(p, seq![a]));
}

/// However long the text read so far, the live threads are distinct
/// addresses of the program, so there are never more of them than it has
/// instructions: the work per character is bounded by the program's size.
pub proof fn lemma_live_threads_bounded(p: Seq<Instruction>, w: Seq<char>)
    ensures
        states(p, w).subset_of(set_int_range(0, p.len() as int)),
        states(p, w).finite(),
        states(p, w).len() <= p.len(),
    decreases w.len(),
{
    if w.len() > 0 {
        lemma_live_threads_bounded(p, w.drop_last());
        assert forall|b: int| #[trigger] states(p, w).contains(b) implies set_int_range(
            0,
            p.len() as int,
        ).contains(b) by {
            let live = states(p, w.drop_last());
            let a = choose|a: int|
                #![trigger live.contains(a), closure(p, a + 1).contains(b)]
                live.contains(a) && 0 <= a < p.len() && p[a] is Match && p[a]->Match_0.accepts(w.last())
                    && closure(p, a + 1).contains(b);
        }
    }
    lemma_int_range(0, p.len() as int);
    lemma_len_subset(states(p, w), set_int_range(0, p.len() as int));
}

proof fn lemma_live_bounded_by_program(p: Seq<Instruction>, live: Set<int>)
    requires
        forall|b: int| #[trigger] live.contains(b) ==> 0 <= b < p.len(),
    ensures
        live.finite(),
        live.len() <= p.len(),
{
    lemma_int_range(0, p.len() as int);
    assert(live.subset_of(set_int_range(0, p.len() as int)));
    lemma_len_subset(live, set_int_range(0, p.len() as int));
}

/// What reading one character did to the live threads.
enum IterResult {
    /// A live thread had already reached `Succeed`.
    Matched,
    /// The threads moved on.
    Continue,
    /// No thread was alive.
    Halt,
}

/// Threads that the first `k` live threads `ips` lead to on reading `c`.
pub open spec fn step_upto(p: Seq<Instruction>, ips: Seq<usize>, k: int, c: char) -> Set<int> {
    Set::new(
        |b: int|
            exists|t: int|
                #![trigger ips[t], closure(p, ips[t] + 1).contains(b)]
                0 <= t < k && 0 <= ips[t] < p.len() && p[ips[t] as int] is Match
                    && p[ips[t] as int]->Match_0.accepts(c) && closure(p, ips[t] + 1).contains(b),
    )
}

/// No thread can come back to life once all have died.
proof fn lemma_states_dead(p: Seq<Instruction>, w: Seq<char>, u: Seq<char>)
    requires
        states(p, w) =~= Set::<int>::empty(),
    ensures
        states(p, w + u) =~= Set::<int>::empty(),
    decreases u.len(),
{
    if u.len() == 0 {
        assert(w + u =~= w);
    } else {
        lemma_states_dead(p, w, u.drop_last());
        assert((w + u).drop_last() =~= w + u.drop_last());
        assert(states(p, w + u) =~= Set::<int>::empty());
    }
}

/// Runs a compiled program over text, keeping every live thread at once.
pub struct Engine {
    program: Vec<Instruction>,
    ips: Vec<usize>,
}

impl Engine {
    /// The program this engine runs.
    pub closed spec fn prog(&self) -> Seq<Instruction> {
        self.program@
    }

    /// The program leaves no address dangling and every live thread is one
    /// of its addresses.
    pub closed spec fn wf(&self) -> bool {
        &&& wf_program(self.program@)
        &&& forall|k: int| 0 <= k < self.ips.len() ==> #[trigger] self.ips@[k] < self.program.len()
    }

    /// An engine for `program`; running an ill-formed program would be a
    /// fault of whatever built it, so it is ruled out here.
    pub fn new(program: Vec<Instruction>) -> (r: Engine)
        requires
            wf_program(program@),
        ensures
            r.wf(),
            r.prog() == program@,
    {
        Engine { program, ips: Vec::new() }
    }

    /// The epsilon-closure of `i`, each address once.
    fn follow_jump(&self, i: usize) -> (r: Vec<usize>)
        requires
            self.wf(),
            i < self.program.len(),
        ensures
            addrs(r@) == closure(self.program@, i as int),
            r@.no_duplicates(),
            forall|k: int| 0 <= k < r.len() ==> #[trigger] r@[k] < self.program.len(),
    {
        let ghost p = self.program@;
        let n = self.program.len();
        let mut visited: Vec<bool> = Vec::new();
        let mut j: usize = 0;
        while j < n
            invariant
                j <= n,
                visited.len() == j,
                forall|b: int| 0 <= b < j ==> !#[trigger] visited@[b],
            decreases n - j,
        {
            visited.push(false);
            j = j + 1;
        }
        let mut addresses: Vec<usize> = Vec::new();
        let mut working: Vec<usize> = Vec::new();
        visited.set(i, true);
        working.push(i);
        let ghost mut vis: Set<int> = set![i as int];
        proof {
            lemma_addrs_push(Seq::empty(), i);
            assert(Seq::<usize>::empty().push(i) =~= working@);
            assert(addrs(Seq::<usize>::empty()) =~= Set::<int>::empty());
            assert(addrs(addresses@) =~= Set::<int>::empty());
            lemma_reach_self(p, i as int);
            lemma_int_range(0, n as int);
        }
        while working.len() > 0
            invariant
                p == self.program@,
                n == p.len(),
                self.wf(),
                i < n,
                visited.len() == n,
                forall|b: int| 0 <= b < n ==> #[trigger] visited@[b] == vis.contains(b),
                vis.subset_of(set_int_range(0, n as int)),
                set_int_range(0, n as int).finite(),
                set_int_range(0, n as int).len() == n,
                vis.contains(i as int),
                addrs(working@).subset_of(vis),
                addrs(addresses@).subset_of(vis),
                working@.no_duplicates(),
                addresses@.no_duplicates(),
                forall|b: int| #[trigger] addrs(working@).contains(b) ==> !addrs(addresses@).contains(b),
                forall|b: int| #[trigger] addrs(addresses@).contains(b) ==> 0 <= b < n && is_thread(p[b]),
                forall|b: int| #[trigger] vis.contains(b) ==> reachable(p, i as int, b),
                forall|b: int|
                    #[trigger] vis.contains(b) && !addrs(working@).contains(b) ==> (is_thread(p[b])
                        ==> addrs(addresses@).contains(b)),
                forall|x: int, y: int|
                    vis.contains(x) && !addrs(working@).contains(x) && #[trigger] eps_step(p, x, y)
                        ==> vis.contains(y),
            decreases 2 * (n - vis.len()) + working.len(),
        {
            proof {
                lemma_len_subset(vis, set_int_range(0, n as int));
                lemma_addrs_pop(working@);
            }
            let ghost w0 = working@;
            let a = working.pop().unwrap();
            assert(addrs(w0).contains(a as int)) by {
                assert(w0[w0.len() - 1] == a);
            }
            assert(set_int_range(0, n as int).contains(a as int));
            assert(inst_ok(p[a as int], a as int, n as int));
            match self.program[a] {
                Instruction::Split(x, y) => {
                    if !visited[x] {
                        proof {
                            lemma_reach_extend(p, i as int, a as int, x as int);
                            lemma_addrs_push(working@, x);
                        }
                        visited.set(x, true);
                        working.push(x);
                        proof {
                            vis = vis.insert(x as int);
                        }
                    }
                    proof {
                        lemma_len_subset(vis, set_int_range(0, n as int));
                    }
                    if !visited[y] {
                        proof {
                            lemma_reach_extend(p, i as int, a as int, y as int);
                            lemma_addrs_push(working@, y);
                        }
                        visited.set(y, true);
                        working.push(y);
                        proof {
                            vis = vis.insert(y as int);
                        }
                    }
                },
                Instruction::Jmp(t) => {
                    if !visited[t] {
                        proof {
                            lemma_reach_extend(p, i as int, a as int, t as int);
                            lemma_addrs_push(working@, t);
                        }
                        visited.set(t, true);
                        working.push(t);
                        proof {
                            vis = vis.insert(t as int);
                        }
                    }
                },
                _ => {
                    proof {
                        lemma_addrs_push(addresses@, a);
                    }
                    addresses.push(a);
                },
            }
            proof {
                lemma_len_subset(vis, set_int_range(0, n as int));
            }
        }
        assert(addrs(working@) =~= Set::<int>::empty());
        assert forall|b: int| addrs(addresses@).contains(b) <==> closure(p, i as int).contains(b) by {
            if closure(p, i as int).contains(b) {
                lemma_closed_reach(p, vis, i as int, b);
            }
        }
        assert(addrs(addresses@) =~= closure(p, i as int));
        assert forall|k: int| 0 <= k < addresses.len() implies #[trigger] addresses@[k] < n by {
            assert(addrs(addresses@).contains(addresses@[k] as int));
        }
        addresses
    }

    /// Whether the program matches some piece of `string`. An attempt starts
    /// at every character of `string`, none after the last: an empty string
    /// never matches, even for a pattern such as `a?` that accepts the empty
    /// string.
    pub fn matches(&mut self, string: &str) -> (r: bool)
        requires
            old(self).wf(),
        ensures
            final(self).wf(),
            final(self).prog() == old(self).prog(),
            r == spec_matches(old(self).prog(), string@),
    {
        let ghost p = self.program@;
        let mut text: Vec<char> = Vec::new();
        for c in it: string.chars()
            invariant
                text@ == it.seq().take(it.index() as int),
        {
            text.push(c);
        }
        let ghost t = text@;
        assert(t == string@);
        let n = text.len();
        let mut start: usize = 0;
        while start < n
            invariant
                self.wf(),
                self.program@ == p,
                p == old(self).prog(),
                t == string@,
                t == text@,
                n == t.len(),
                start <= n,
                forall|s: int, e: int|
                    0 <= s < start && s <= e <= n ==> !#[trigger] accepts(p, t.subrange(s, e)),
            decreases n - start,
        {
            self.init();
            let mut j: usize = start;
            assert(t.subrange(start as int, start as int) =~= Seq::<char>::empty());
            let mut halted = false;
            while j < n
                invariant_except_break
                    !halted,
                invariant
                    self.wf(),
                    self.program@ == p,
                    p == old(self).prog(),
                    t == string@,
                    t == text@,
                    n == t.len(),
                    start < n,
                    start <= j <= n,
                    self.ips@.no_duplicates(),
                    addrs(self.ips@) == states(p, t.subrange(start as int, j as int)),
                    forall|e: int| start <= e < j ==> !#[trigger] accepts(p, t.subrange(start as int, e)),
                    halted ==> self.ips.len() == 0,
                ensures
                    halted || j == n,
                decreases n - j,
            {
                let ghost w = t.subrange(start as int, j as int);
                let ghost ips0 = self.ips@;
                assert(forall|x: int| 0 <= x < ips0.len() ==> #[trigger] ips0[x] < p.len());
                match self.iterate(text[j]) {
                    IterResult::Matched => {
                        proof {
                            let a = choose|a: int| #[trigger] addrs(ips0).contains(a) && p[a] is Succeed;
                            let x = choose|x: int| 0 <= x < ips0.len() && ips0[x] as int == a;
                            assert(ips0[x] < p.len());
                            assert(states(p, w).contains(a));
                        }
                        assert(accepts(p, t.subrange(start as int, j as int)));
                        return true;
                    },
                    IterResult::Halt => {
                        halted = true;
                        break;
                    },
                    IterResult::Continue => {},
                }
                assert(!accepts(p, w)) by {
                    if accepts(p, w) {
                        let a = choose|a: int| #[trigger] states(p, w).contains(a) && 0 <= a < p.len() && p[a] is Succeed;
                        assert(addrs(ips0).contains(a));
                    }
                }
                assert(t.subrange(start as int, j + 1).drop_last() =~= w);
                j = j + 1;
            }
            let mut k: usize = 0;
            while k < self.ips.len()
                invariant
                    self.wf(),
                    self.program@ == p,
                    p == old(self).prog(),
                    t == string@,
                    n == t.len(),
                    start < n,
                    start <= j <= n,
                    addrs(self.ips@) == states(p, t.subrange(start as int, j as int)),
                    k <= self.ips.len(),
                    forall|x: int| 0 <= x < k ==> !(#[trigger] p[self.ips@[x] as int] is Succeed),
                decreases self.ips.len() - k,
            {
                match self.program[self.ips[k]] {
                    Instruction::Succeed => {
                        assert(addrs(self.ips@).contains(self.ips@[k as int] as int));
                        assert(accepts(p, t.subrange(start as int, j as int)));
                        return true;
                    },
                    _ => {},
                }
                k = k + 1;
            }
            assert forall|e: int| start <= e <= n implies !#[trigger] accepts(p, t.subrange(start as int, e)) by {
                if e >= j {
                    let w = t.subrange(start as int, j as int);
                    let rest = t.subrange(j as int, e);
                    assert(t.subrange(start as int, e) =~= w + rest);
                    if halted {
                        assert(addrs(self.ips@) =~= Set::<int>::empty());
                        lemma_states_dead(p, w, rest);
                    } else {
                        assert(rest =~= Seq::<char>::empty());
                        assert(w + rest =~= w);
                        if accepts(p, w) {
                            let a = choose|a: int| #[trigger] states(p, w).contains(a) && 0 <= a < p.len() && p[a] is Succeed;
                            let x = choose|x: int| 0 <= x < self.ips.len() && self.ips@[x] as int == a;
                            assert(p[self.ips@[x] as int] is Succeed);
                        }
                    }
                }
            }
            start = start + 1;
        }
        false
    }

    /// Starts the threads of a new attempt at the program's entry.
    fn init(&mut self)
        requires
            old(self).wf(),
        ensures
            final(self).wf(),
            final(self).program == old(self).program,
            addrs(final(self).ips@) == closure(final(self).program@, 0),
            final(self).ips@.no_duplicates(),
    {
        self.ips = self.follow_jump(0);
    }

    /// Moves every live thread over the character `c`.
    fn iterate(&mut self, c: char) -> (r: IterResult)
        requires
            old(self).wf(),
            old(self).ips@.no_duplicates(),
        ensures
            final(self).wf(),
            final(self).program == old(self).program,
            final(self).ips@.no_duplicates(),
            final(self).ips.len() <= final(self).program.len(),
            old(self).ips.len() == 0 ==> r is Halt && final(self).ips@ == old(self).ips@,
            old(self).ips.len() > 0 ==> !(r is Halt),
            old(self).ips.len() > 0 ==> (r is Matched <==> exists|a: int|
                #[trigger] addrs(old(self).ips@).contains(a) && old(self).program@[a] is Succeed),
            old(self).ips.len() > 0 ==> addrs(final(self).ips@) == step(
                old(self).program@,
                addrs(old(self).ips@),
                c,
            ),
    {
        if self.ips.len() == 0 {
            return IterResult::Halt;
        }
        let ghost p = self.program@;
        let ghost ips = self.ips@;
        let n = self.program.len();
        let mut seen: Vec<bool> = Vec::new();
        let mut j: usize = 0;
        while j < n
            invariant
                j <= n,
                seen.len() == j,
                forall|b: int| 0 <= b < j ==> !#[trigger] seen@[b],
            decreases n - j,
        {
            seen.push(false);
            j = j + 1;
        }
        let mut new_ips: Vec<usize> = Vec::new();
        let mut matched = false;
        let mut k: usize = 0;
        assert(addrs(new_ips@) =~= step_upto(p, ips, 0, c));
        while k < self.ips.len()
            invariant
                self.wf(),
                p == self.program@,
                ips == self.ips@,
                n == p.len(),
                k <= ips.len(),
                seen.len() == n,
                forall|b: int| 0 <= b < n ==> #[trigger] seen@[b] == addrs(new_ips@).contains(b),
                new_ips@.no_duplicates(),
                forall|t: int| 0 <= t < new_ips.len() ==> #[trigger] new_ips@[t] < n,
                addrs(new_ips@) == step_upto(p, ips, k as int, c),
                matched <==> exists|t: int| 0 <= t < k && #[trigger] p[ips[t] as int] is Succeed,
            decreases ips.len() - k,
        {
            let a = self.ips[k];
            let ghost before = step_upto(p, ips, k as int, c);
            assert(inst_ok(p[a as int], a as int, n as int));
            match self.program[a] {
                Instruction::Match(m) => {
                    if m.test(c) {
                        let next = self.follow_jump(a + 1);
                        let mut q: usize = 0;
                        while q < next.len()
                            invariant
                                p == self.program@,
                                n == p.len(),
                                seen.len() == n,
                                q <= next.len(),
                                forall|b: int| 0 <= b < n ==> #[trigger] seen@[b] == addrs(new_ips@).contains(b),
                                new_ips@.no_duplicates(),
                                forall|t: int| 0 <= t < new_ips.len() ==> #[trigger] new_ips@[t] < n,
                                forall|t: int| 0 <= t < next.len() ==> #[trigger] next@[t] < n,
                                addrs(new_ips@) == before + addrs(next@.take(q as int)),
                            decreases next.len() - q,
                        {
                            let x = next[q];
                            proof {
                                lemma_addrs_push(next@.take(q as int), x);
                                assert(next@.take(q + 1) =~= next@.take(q as int).push(x));
                            }
                            if !seen[x] {
                                proof {
                                    lemma_addrs_push(new_ips@, x);
                                    assert forall|t: int| 0 <= t < new_ips.len() implies new_ips@[t] != x by {
                                        assert(addrs(new_ips@).contains(new_ips@[t] as int));
                                    }
                                }
                                seen.set(x, true);
                                new_ips.push(x);
                            } else {
                                assert(addrs(new_ips@).contains(x as int));
                                assert(addrs(new_ips@) =~= addrs(new_ips@).insert(x as int));
                            }
                            assert(addrs(new_ips@) =~= before + addrs(next@.take(q + 1)));
                            q = q + 1;
                        }
                        assert(next@.take(q as int) =~= next@);
                    }
                },
                Instruction::Succeed => {
                    matched = true;
                },
                _ => {},
            }
            assert(step_upto(p, ips, k + 1, c) =~= addrs(new_ips@)) by {
                assert forall|b: int| #[trigger] step_upto(p, ips, k + 1, c).contains(b) implies addrs(new_ips@).contains(b) by {
                    let t = choose|t: int|
                        #![trigger ips[t], closure(p, ips[t] + 1).contains(b)]
                        0 <= t < k + 1 && 0 <= ips[t] < p.len() && p[ips[t] as int] is Match
                            && p[ips[t] as int]->Match_0.accepts(c) && closure(p, ips[t] + 1).contains(b);
                    if t < k {
                        assert(before.contains(b));
                    }
                }
                assert forall|b: int| #[trigger] addrs(new_ips@).contains(b) implies step_upto(p, ips, k + 1, c).contains(b) by {
                    if !before.contains(b) {
                        assert(ips[k as int] == a);
                    }
                }
            }
            k = k + 1;
        }
        assert(step_upto(p, ips, ips.len() as int, c) =~= step(p, addrs(ips), c)) by {
            assert forall|b: int| #[trigger] step(p, addrs(ips), c).contains(b) implies step_upto(p, ips, ips.len() as int, c).contains(b) by {
                let a = choose|a: int|
                    #![trigger addrs(ips).contains(a), closure(p, a + 1).contains(b)]
                    addrs(ips).contains(a) && 0 <= a < p.len() && p[a] is Match && p[a]->Match_0.accepts(c)
                        && closure(p, a + 1).contains(b);
                let t = choose|t: int| 0 <= t < ips.len() && ips[t] as int == a;
                assert(closure(p, ips[t] + 1).contains(b));
            }
            assert forall|b: int| #[trigger] step_upto(p, ips, ips.len() as int, c).contains(b) implies step(p, addrs(ips), c).contains(b) by {
                let t = choose|t: int|
                    #![trigger ips[t], closure(p, ips[t] + 1).contains(b)]
                    0 <= t < ips.len() && 0 <= ips[t] < p.len() && p[ips[t] as int] is Match
                        && p[ips[t] as int]->Match_0.accepts(c) && closure(p, ips[t] + 1).contains(b);
                assert(addrs(ips).contains(ips[t] as int));
            }
        }
        assert(matched <==> exists|a: int| #[trigger] addrs(ips).contains(a) && p[a] is Succeed) by {
            if matched {
                let t = choose|t: int| 0 <= t < ips.len() && #[trigger] p[ips[t] as int] is Succeed;
                assert(addrs(ips).contains(ips[t] as int));
            }
            if exists|a: int| #[trigger] addrs(ips).contains(a) && p[a] is Succeed {
                let a = choose|a: int| #[trigger] addrs(ips).contains(a) && p[a] is Succeed;
                let t = choose|t: int| 0 <= t < ips.len() && ips[t] as int == a;
                assert(p[ips[t] as int] is Succeed);
            }
        }
        proof {
            lemma_addrs_len(new_ips@);
            lemma_live_bounded_by_program(p, addrs(new_ips@));
        }
        self.ips = new_ips;
        if matched {
            IterResult::Matched
        } else {
            IterResult::Continue
        }
    }
}

/// Compiles `pattern` into an engine ready to search text. The pattern must
/// be short enough for its program, at most three instructions per character
/// plus three, to be addressed.
pub fn compile(pattern: &str) -> (r: Result<Engine, ParseError>)
    requires
        3 * pattern@.len() + 3 < usize::MAX,
    ensures
        match r {
            Ok(e) => e.wf() && spec_compile(pattern@) == Ok::<Seq<Instruction>, ParseError>(e.prog()),
            Err(x) => spec_compile(pattern@) == Err::<Seq<Instruction>, ParseError>(x),
        },
{
    match crate::compile::compile(pattern) {
        Ok(p) => Ok(Engine::new(p)),
        Err(e) => Err(e),
    }
}

} // verus!
