use vstd::prelude::*;
use crate::inst::{inst_ok, wf_program, Instruction};
use crate::parse::{
    close_seq, lemma_view_alts_len, lemma_view_fragment, lemma_view_or, spec_one, spec_parse,
    spec_seq, view_alts, view_ast, view_one, view_seq, Ast, AstSpec, Modifier, One, OneSpec,
    ParseError, Parser,
};

verus! {

/// Number of instructions a quantifier adds around its operand.
pub open spec fn modifier_len(m: Modifier) -> nat {
    match m {
        Modifier::No => 0,
        Modifier::QMark => 1,
        Modifier::Star => 2,
        Modifier::Plus => 1,
    }
}

/// Number of instructions the code of a sequence takes.
pub open spec fn len_seq(a: Seq<AstSpec>) -> nat
    decreases a, 0int,
{
    if a.len() == 0 {
        0
    } else {
        len_seq(a.drop_last()) + len_ast(a.last())
    }
}

pub open spec fn len_ast(a: AstSpec) -> nat
    decreases a, 0int,
{
    match a {
        AstSpec::Or(alts) => len_alts(alts),
        AstSpec::Fragment(o, m) => len_one(o) + modifier_len(m),
    }
}

pub open spec fn len_one(o: OneSpec) -> nat
    decreases o, 0int,
{
    match o {
        OneSpec::Match(_) => 1,
        OneSpec::Group(g) => len_seq(g),
    }
}

/// Each alternative takes its own code plus a leading split and a trailing jump.
pub open spec fn len_alts(alts: Seq<Seq<AstSpec>>) -> nat
    decreases alts, 0int,
{
    if alts.len() == 0 {
        0
    } else {
        len_alts(alts.drop_last()) + len_seq(alts.last()) + 2
    }
}

/// The code of a sequence whose first instruction stands at address `base`.
pub open spec fn code_seq(a: Seq<AstSpec>, base: int) -> Seq<Instruction>
    decreases a, 0int,
{
    if a.len() == 0 {
        Seq::empty()
    } else {
        code_seq(a.drop_last(), base) + code_ast(a.last(), base + len_seq(a.drop_last()))
    }
}

pub open spec fn code_ast(a: AstSpec, base: int) -> Seq<Instruction>
    decreases a, 0int,
{
    match a {
        AstSpec::Or(alts) => code_alts(alts, base, base + len_alts(alts), alts.len()),
        AstSpec::Fragment(o, m) => code_fragment(o, m, base),
    }
}

pub open spec fn code_one(o: OneSpec, base: int) -> Seq<Instruction>
    decreases o, 0int,
{
    match o {
        OneSpec::Match(m) => seq![Instruction::Match(m)],
        OneSpec::Group(g) => code_seq(g, base),
    }
}

/// An operand wrapped in the control flow of its quantifier.
pub open spec fn code_fragment(o: OneSpec, m: Modifier, base: int) -> Seq<Instruction>
    decreases o, 1int,
{
    let n = len_one(o) as int;
    match m {
        Modifier::No => code_one(o, base),
        Modifier::QMark => seq![Instruction::Split((base + 1) as usize, (base + 1 + n) as usize)]
            + code_one(o, base + 1),
        Modifier::Star => seq![Instruction::Split((base + 1) as usize, (base + 2 + n) as usize)]
            + code_one(o, base + 1) + seq![Instruction::Jmp(base as usize)],
        Modifier::Plus => code_one(o, base) + seq![
            Instruction::Split(base as usize, (base + n + 1) as usize),
        ],
    }
}

/// Alternatives laid out one after another from `base`; each ends with a jump
/// to `end`, where they all join. Each but the last of all `count` starts with
/// a split between itself and the next one; the last has no other way to go.
pub open spec fn code_alts(alts: Seq<Seq<AstSpec>>, base: int, end: int, count: nat) -> Seq<
    Instruction,
>
    decreases alts, 0int,
{
    if alts.len() == 0 {
        Seq::empty()
    } else {
        let p = base + len_alts(alts.drop_last());
        let n = len_seq(alts.last()) as int;
        let other = if alts.len() == count {
            p + 1
        } else {
            p + n + 2
        };
        code_alts(alts.drop_last(), base, end, count) + seq![
            Instruction::Split((p + 1) as usize, other as usize),
        ] + code_seq(alts.last(), p + 1) + seq![Instruction::Jmp(end as usize)]
    }
}

/// The program for a whole syntax tree: its code, then the final `Succeed`.
pub open spec fn code_program(a: Seq<AstSpec>) -> Seq<Instruction> {
    code_seq(a, 0).push(Instruction::Succeed)
}

proof fn lemma_len_seq(a: Seq<AstSpec>, base: int)
    ensures
        code_seq(a, base).len() == len_seq(a),
    decreases a, 0int,
{
    if a.len() > 0 {
        lemma_len_seq(a.drop_last(), base);
        lemma_len_ast(a.last(), base + len_seq(a.drop_last()));
    }
}

proof fn lemma_len_ast(a: AstSpec, base: int)
    ensures
        code_ast(a, base).len() == len_ast(a),
    decreases a, 0int,
{
    match a {
        AstSpec::Or(alts) => lemma_len_alts(alts, base, base + len_alts(alts), alts.len()),
        AstSpec::Fragment(o, m) => lemma_len_fragment(o, m, base),
    }
}

proof fn lemma_len_one(o: OneSpec, base: int)
    ensures
        code_one(o, base).len() == len_one(o),
    decreases o, 0int,
{
    match o {
        OneSpec::Match(_) => {},
        OneSpec::Group(g) => lemma_len_seq(g, base),
    }
}

proof fn lemma_len_fragment(o: OneSpec, m: Modifier, base: int)
    ensures
        code_fragment(o, m, base).len() == len_one(o) + modifier_len(m),
    decreases o, 1int,
{
    lemma_len_one(o, base);
    lemma_len_one(o, base + 1);
}

proof fn lemma_len_alts(alts: Seq<Seq<AstSpec>>, base: int, end: int, count: nat)
    ensures
        code_alts(alts, base, end, count).len() == len_alts(alts),
    decreases alts, 0int,
{
    if alts.len() > 0 {
        lemma_len_alts(alts.drop_last(), base, end, count);
        lemma_len_seq(alts.last(), base + len_alts(alts.drop_last()) + 1);
    }
}

/// Addresses of the trailing jumps of the alternatives laid out from `base`.
pub open spec fn alt_jumps(alts: Seq<Seq<AstSpec>>, base: int) -> Seq<int>
    decreases alts.len(),
{
    if alts.len() == 0 {
        Seq::empty()
    } else {
        alt_jumps(alts.drop_last(), base).push(base + len_alts(alts) - 1)
    }
}

/// Laying out alternatives towards one join point or another differs only in
/// the trailing jumps.
proof fn lemma_alts_patch(alts: Seq<Seq<AstSpec>>, base: int, end: int, count: nat)
    ensures
        alt_jumps(alts, base).len() == alts.len(),
        forall|t: int| 0 <= t < alts.len() ==> base <= #[trigger] alt_jumps(alts, base)[t] < base + len_alts(alts),
        forall|k: int|
            0 <= k < len_alts(alts) ==> #[trigger] code_alts(alts, base, end, count)[k] == if alt_jumps(
                alts,
                base,
            ).contains(base + k) {
                Instruction::Jmp(end as usize)
            } else {
                code_alts(alts, base, 0, count)[k]
            },
    decreases alts.len(),
{
    lemma_len_alts(alts, base, end, count);
    lemma_len_alts(alts, base, 0, count);
    if alts.len() > 0 {
        let d = alts.drop_last();
        lemma_alts_patch(d, base, end, count);
        lemma_len_alts(d, base, end, count);
        lemma_len_alts(d, base, 0, count);
        let p = base + len_alts(d);
        lemma_len_seq(alts.last(), p + 1);
        let js = alt_jumps(alts, base);
        assert(js == alt_jumps(d, base).push(base + len_alts(alts) - 1));
        assert forall|k: int| 0 <= k < len_alts(alts) implies #[trigger] code_alts(alts, base, end, count)[k] == if js.contains(base + k) {
            Instruction::Jmp(end as usize)
        } else {
            code_alts(alts, base, 0, count)[k]
        } by {
            if k < len_alts(d) {
                assert(code_alts(alts, base, end, count)[k] == code_alts(d, base, end, count)[k]);
                assert(code_alts(alts, base, 0, count)[k] == code_alts(d, base, 0, count)[k]);
                if alt_jumps(d, base).contains(base + k) {
                    let t = alt_jumps(d, base).index_of(base + k);
                    assert(js[t] == base + k);
                    assert(js.contains(base + k));
                } else {
                    assert(!js.contains(base + k)) by {
                        if js.contains(base + k) {
                            let t = js.index_of(base + k);
                            if t < alt_jumps(d, base).len() {
                                assert(alt_jumps(d, base)[t] == base + k);
                            }
                        }
                    }
                }
            } else {
                assert(!alt_jumps(d, base).contains(base + k)) by {
                    if alt_jumps(d, base).contains(base + k) {
                        let t = alt_jumps(d, base).index_of(base + k);
                        assert(alt_jumps(d, base)[t] < base + len_alts(d));
                    }
                }
                if k == len_alts(alts) - 1 {
                    assert(js[js.len() - 1] == base + k);
                } else {
                    assert(!js.contains(base + k)) by {
                        if js.contains(base + k) {
                            let t = js.index_of(base + k);
                            if t < alt_jumps(d, base).len() {
                                assert(alt_jumps(d, base)[t] == base + k);
                            }
                        }
                    }
                }
            }
        }
    }
}

proof fn lemma_len_alts_prefix(s: Seq<Vec<Ast>>, i: int)
    requires
        0 <= i <= s.len(),
    ensures
        len_alts(view_alts(s.take(i))) <= len_alts(view_alts(s)),
    decreases s.len(),
{
    if i < s.len() {
        let d = s.drop_last();
        assert(s.take(i) =~= d.take(i));
        assert(view_alts(s).drop_last() =~= view_alts(d));
        lemma_len_alts_prefix(d, i);
    } else {
        assert(s.take(i) =~= s);
    }
}

proof fn lemma_len_seq_prefix(s: Seq<Ast>, i: int)
    requires
        0 <= i <= s.len(),
    ensures
        len_seq(view_seq(s.take(i))) <= len_seq(view_seq(s)),
    decreases s.len(),
{
    if i < s.len() {
        let d = s.drop_last();
        assert(s.take(i) =~= d.take(i));
        assert(view_seq(s).drop_last() =~= view_seq(d));
        lemma_len_seq_prefix(d, i);
    } else {
        assert(s.take(i) =~= s);
    }
}

/// Every address that `code`, placed at `base`, refers to is at most `hi`,
/// each of its `Match` instructions is followed by one below `hi`, and none
/// of its instructions is `Succeed`.
pub open spec fn bounded(code: Seq<Instruction>, base: int, hi: int) -> bool {
    forall|k: int|
        0 <= k < code.len() ==> #[trigger] inst_ok(code[k], base + k, hi + 1) && !(code[k] is Succeed)
}

proof fn lemma_bounded_concat(x: Seq<Instruction>, y: Seq<Instruction>, base: int, hi: int)
    requires
        bounded(x, base, hi),
        bounded(y, base + x.len(), hi),
    ensures
        bounded(x + y, base, hi),
{
    assert forall|k: int| 0 <= k < (x + y).len() implies #[trigger] inst_ok((x + y)[k], base + k, hi + 1)
        && !((x + y)[k] is Succeed) by {
        if k >= x.len() {
            assert(inst_ok(y[k - x.len()], base + x.len() + (k - x.len()), hi + 1));
            assert((x + y)[k] == y[k - x.len()]);
        } else {
            assert(inst_ok(x[k], base + k, hi + 1));
            assert((x + y)[k] == x[k]);
        }
    }
}

proof fn lemma_bounded_weaken(x: Seq<Instruction>, base: int, hi: int, hi2: int)
    requires
        bounded(x, base, hi),
        hi <= hi2,
    ensures
        bounded(x, base, hi2),
{
    assert forall|k: int| 0 <= k < x.len() implies #[trigger] inst_ok(x[k], base + k, hi2 + 1) && !(
        x[k] is Succeed) by {
        assert(inst_ok(x[k], base + k, hi + 1));
    }
}

proof fn lemma_bounded_seq(a: Seq<AstSpec>, base: int)
    requires
        0 <= base,
        base + len_seq(a) <= usize::MAX,
    ensures
        bounded(code_seq(a, base), base, base + len_seq(a)),
    decreases a, 0int,
{
    if a.len() > 0 {
        let d = a.drop_last();
        let hi = base + len_seq(a);
        lemma_bounded_seq(d, base);
        lemma_bounded_ast(a.last(), base + len_seq(d));
        lemma_len_seq(d, base);
        lemma_bounded_weaken(code_seq(d, base), base, base + len_seq(d), hi);
        lemma_bounded_concat(code_seq(d, base), code_ast(a.last(), base + len_seq(d)), base, hi);
    }
}

proof fn lemma_bounded_ast(a: AstSpec, base: int)
    requires
        0 <= base,
        base + len_ast(a) <= usize::MAX,
    ensures
        bounded(code_ast(a, base), base, base + len_ast(a)),
    decreases a, 0int,
{
    match a {
        AstSpec::Or(alts) => lemma_bounded_alts(alts, base, base + len_alts(alts), alts.len()),
        AstSpec::Fragment(o, m) => lemma_bounded_fragment(o, m, base),
    }
}

proof fn lemma_bounded_one(o: OneSpec, base: int)
    requires
        0 <= base,
        base + len_one(o) <= usize::MAX,
    ensures
        bounded(code_one(o, base), base, base + len_one(o)),
    decreases o, 0int,
{
    match o {
        OneSpec::Match(m) => {
            assert(inst_ok(code_one(o, base)[0], base, base + 2));
        },
        OneSpec::Group(g) => lemma_bounded_seq(g, base),
    }
}

proof fn lemma_bounded_fragment(o: OneSpec, m: Modifier, base: int)
    requires
        0 <= base,
        base + len_one(o) + modifier_len(m) <= usize::MAX,
    ensures
        bounded(code_fragment(o, m, base), base, base + len_one(o) + modifier_len(m)),
    decreases o, 1int,
{
    let n = len_one(o) as int;
    let hi = base + n + modifier_len(m);
    match m {
        Modifier::No => lemma_bounded_one(o, base),
        Modifier::QMark => {
            let head = seq![Instruction::Split((base + 1) as usize, (base + 1 + n) as usize)];
            lemma_bounded_one(o, base + 1);
            assert(inst_ok(head[0], base, hi + 1));
            lemma_bounded_concat(head, code_one(o, base + 1), base, hi);
        },
        Modifier::Star => {
            let head = seq![Instruction::Split((base + 1) as usize, (base + 2 + n) as usize)];
            let tail = seq![Instruction::Jmp(base as usize)];
            lemma_bounded_one(o, base + 1);
            lemma_len_one(o, base + 1);
            lemma_bounded_weaken(code_one(o, base + 1), base + 1, base + 1 + n, hi);
            assert(inst_ok(head[0], base, hi + 1));
            assert(inst_ok(tail[0], base + 1 + n, hi + 1));
            lemma_bounded_concat(head, code_one(o, base + 1), base, hi);
            lemma_bounded_concat(head + code_one(o, base + 1), tail, base, hi);
        },
        Modifier::Plus => {
            let tail = seq![Instruction::Split(base as usize, (base + n + 1) as usize)];
            lemma_bounded_one(o, base);
            lemma_len_one(o, base);
            lemma_bounded_weaken(code_one(o, base), base, base + n, hi);
            assert(inst_ok(tail[0], base + n, hi + 1));
            lemma_bounded_concat(code_one(o, base), tail, base, hi);
        },
    }
}

proof fn lemma_bounded_alts(alts: Seq<Seq<AstSpec>>, base: int, end: int, count: nat)
    requires
        0 <= base,
        base + len_alts(alts) <= end <= usize::MAX,
    ensures
        bounded(code_alts(alts, base, end, count), base, end),
    decreases alts, 0int,
{
    if alts.len() > 0 {
        let d = alts.drop_last();
        let p = base + len_alts(d);
        let n = len_seq(alts.last()) as int;
        let other = if alts.len() == count {
            p + 1
        } else {
            p + n + 2
        };
        let head = seq![Instruction::Split((p + 1) as usize, other as usize)];
        let body = code_seq(alts.last(), p + 1);
        let tail = seq![Instruction::Jmp(end as usize)];
        lemma_bounded_alts(d, base, end, count);
        lemma_len_alts(d, base, end, count);
        lemma_bounded_seq(alts.last(), p + 1);
        lemma_len_seq(alts.last(), p + 1);
        lemma_bounded_weaken(body, p + 1, p + 1 + n, end);
        assert(inst_ok(head[0], p, end + 1));
        assert(inst_ok(tail[0], p + 1 + n, end + 1));
        lemma_bounded_concat(code_alts(d, base, end, count), head, base, end);
        lemma_bounded_concat(code_alts(d, base, end, count) + head, body, base, end);
        lemma_bounded_concat(code_alts(d, base, end, count) + head + body, tail, base, end);
    }
}

/// The program of any syntax tree small enough to address is well formed,
/// and its only `Succeed` is its last instruction.
pub(crate) proof fn lemma_program_wf(a: Seq<AstSpec>)
    requires
        len_seq(a) < usize::MAX,
    ensures
        wf_program(code_program(a)),
        code_program(a).len() == len_seq(a) + 1,
        single_succeed(code_program(a)),
{
    lemma_bounded_seq(a, 0);
    lemma_len_seq(a, 0);
    let p = code_program(a);
    assert forall|i: int| 0 <= i < p.len() implies #[trigger] inst_ok(p[i], i, p.len() as int) && (
    p[i] is Succeed <==> i == p.len() - 1) by {
        if i < len_seq(a) {
            assert(inst_ok(code_seq(a, 0)[i], 0 + i, len_seq(a) as int + 1));
        }
    }
    assert forall|i: int| 0 <= i < p.len() implies (#[trigger] p[i] is Succeed <==> i == p.len() - 1) by {
        assert(inst_ok(p[i], i, p.len() as int) && (p[i] is Succeed <==> i == p.len() - 1));
    }
}

/// Instructions that the nodes read so far will take once the current run
/// of nodes is closed.
pub open spec fn pending_len(alts: Seq<Seq<AstSpec>>, acc: Seq<AstSpec>) -> nat {
    if alts.len() == 0 {
        len_seq(acc)
    } else {
        len_alts(alts.push(acc))
    }
}

proof fn lemma_one_bound(s: Seq<char>, pos: int)
    requires
        0 <= pos,
    ensures
        match spec_one(s, pos) {
            Ok(Some((node, q))) => pos < q <= s.len() && len_ast(node) <= 3 * (q - pos),
            _ => true,
        },
    decreases s.len() - pos, 0int,
{
    if 0 <= pos < s.len() && s[pos] == '(' {
        lemma_seq_bound(s, pos + 1, Some(')'), Seq::empty(), Seq::empty(), pos + 1);
        assert(len_seq(Seq::<AstSpec>::empty()) == 0);
    }
}

proof fn lemma_seq_bound(
    s: Seq<char>,
    pos: int,
    delim: Option<char>,
    alts: Seq<Seq<AstSpec>>,
    acc: Seq<AstSpec>,
    start: int,
)
    requires
        0 <= start <= pos <= s.len(),
        alts.len() == 0 ==> pending_len(alts, acc) <= 3 * (pos - start),
        alts.len() > 0 ==> pending_len(alts, acc) <= 3 * (pos - start) + 2,
    ensures
        match spec_seq(s, pos, delim, alts, acc) {
            Ok((r, found, e)) => pos <= e <= s.len() && (found ==> pos < e) && len_seq(r) <= 3 * (e
                - start) + 2,
            _ => true,
        },
    decreases s.len() - pos, 1int,
{
    lemma_one_bound(s, pos);
    assert(len_seq(close_seq(alts, acc)) == pending_len(alts, acc)) by {
        if alts.len() > 0 {
            let r = close_seq(alts, acc);
            assert(r.drop_last() =~= Seq::<AstSpec>::empty());
            assert(len_seq(Seq::<AstSpec>::empty()) == 0);
            assert(len_ast(r.last()) == len_alts(alts.push(acc)));
        }
    }
    match spec_one(s, pos) {
        Ok(Some((node, q))) => {
            if pos < q <= s.len() {
                let acc2 = acc.push(node);
                assert(acc2.drop_last() =~= acc);
                assert(alts.push(acc2).drop_last() =~= alts);
                assert(len_seq(acc2) == len_seq(acc) + len_ast(node));
                assert(pending_len(alts, acc2) == pending_len(alts, acc) + len_ast(node)) by {
                    if alts.len() > 0 {
                        assert(alts.push(acc).drop_last() =~= alts);
                        assert(len_alts(alts.push(acc)) == len_alts(alts) + len_seq(acc) + 2);
                        assert(len_alts(alts.push(acc2)) == len_alts(alts) + len_seq(acc2) + 2);
                    }
                }
                assert(len_seq(close_seq(alts, acc2)) == pending_len(alts, acc2)) by {
                    if alts.len() > 0 {
                        let r = close_seq(alts, acc2);
                        assert(r.drop_last() =~= Seq::<AstSpec>::empty());
                        assert(len_seq(Seq::<AstSpec>::empty()) == 0);
                        assert(len_ast(r.last()) == len_alts(alts.push(acc2)));
                    }
                }
                if q < s.len() && s[q] == '|' {
                    let alts2 = alts.push(acc2);
                    let e = Seq::<AstSpec>::empty();
                    assert(alts2.push(e).drop_last() =~= alts2);
                    assert(len_seq(e) == 0);
                    assert(len_alts(alts2.push(e)) == len_alts(alts2) + 2);
                    assert(len_alts(alts2) == len_alts(alts) + len_seq(acc2) + 2);
                    if alts.len() > 0 {
                        assert(alts2.drop_last() =~= alts);
                        assert(alts.push(acc2).drop_last() =~= alts);
                    } else {
                        assert(alts2.drop_last() =~= alts);
                        assert(len_alts(alts) == 0);
                    }
                    lemma_seq_bound(s, q + 1, delim, alts2, e, start);
                } else if q < s.len() && delim != Some(s[q]) {
                    lemma_seq_bound(s, q, delim, alts, acc2, start);
                }
            }
        },
        _ => {},
    }
}

/// The code of a parsed pattern takes at most three instructions per
/// character, plus two.
pub(crate) proof fn lemma_parse_len(s: Seq<char>)
    ensures
        spec_parse(s) is Ok ==> len_seq(spec_parse(s)->Ok_0) <= 3 * s.len() + 2,
{
    lemma_seq_bound(s, 0, None, Seq::empty(), Seq::empty(), 0);
    assert(len_seq(Seq::<AstSpec>::empty()) == 0);
}

/// Emits the bytecode of a syntax tree into a growing program, in one
/// forward pass; forward addresses of alternations are patched once known.
pub struct Compiler {
    pub program: Vec<Instruction>,
}

impl Compiler {
    pub fn new() -> (r: Compiler)
        ensures
            r.program@ == Seq::<Instruction>::empty(),
    {
        Compiler { program: Vec::new() }
    }

    /// Appends the code of `ast` and the final `Succeed`.
    pub fn compile(&mut self, ast: &[Ast])
        requires
            old(self).program.len() + len_seq(view_seq(ast@)) < usize::MAX,
        ensures
            final(self).program@ == (old(self).program@ + code_seq(
                view_seq(ast@),
                old(self).program.len() as int,
            )).push(Instruction::Succeed),
    {
        self.compile_internal(ast);
        self.program.push(Instruction::Succeed);
    }

    fn compile_internal(&mut self, ast: &[Ast])
        requires
            old(self).program.len() + len_seq(view_seq(ast@)) <= usize::MAX,
        ensures
            final(self).program@ == old(self).program@ + code_seq(
                view_seq(ast@),
                old(self).program.len() as int,
            ),
        decreases ast@, 0int,
    {
        let ghost start = self.program@;
        let ghost base = self.program.len() as int;
        let mut i: usize = 0;
        assert(ast@.take(0) =~= Seq::<Ast>::empty());
        assert(start + code_seq(view_seq(ast@.take(0)), base) =~= start);
        while i < ast.len()
            invariant
                i <= ast.len(),
                base == start.len(),
                base + len_seq(view_seq(ast@)) <= usize::MAX,
                self.program@ == start + code_seq(view_seq(ast@.take(i as int)), base),
                self.program.len() == base + len_seq(view_seq(ast@.take(i as int))),
            decreases ast.len() - i,
        {
            let ghost prefix = view_seq(ast@.take(i as int));
            assert(ast@.take(i + 1).drop_last() =~= ast@.take(i as int));
            assert(view_seq(ast@.take(i + 1)) == prefix.push(view_ast(ast@[i as int])));
            assert(prefix.push(view_ast(ast@[i as int])).drop_last() =~= prefix);
            proof {
                lemma_len_seq_prefix(ast@, i + 1);
            }
            assert(len_seq(view_seq(ast@.take(i + 1))) == len_seq(prefix) + len_ast(view_ast(ast@[i as int])));
            match &ast[i] {
                Ast::Fragment(one, modifier) => {
                    proof {
                        lemma_view_fragment(*one, *modifier);
                    }
                    assert(len_ast(view_ast(ast@[i as int])) == len_one(view_one(*one)) + modifier_len(*modifier));
                    assert(decreases_to!(ast@ => ast@[i as int]));
                    self.compile_fragment(one, modifier);
                    assert(code_ast(view_ast(ast@[i as int]), base + len_seq(prefix)) == code_fragment(
                        view_one(*one),
                        *modifier,
                        base + len_seq(prefix),
                    ));
                },
                Ast::Or(asts) => {
                    proof {
                        lemma_view_or(*asts);
                    }
                    assert(len_ast(view_ast(ast@[i as int])) == len_alts(view_alts(asts@)));
                    assert(decreases_to!(ast@ => ast@[i as int]));
                    self.compile_alternation(asts);
                },
            }
            proof {
                lemma_len_ast(view_ast(ast@[i as int]), base + len_seq(prefix));
            }
            assert(code_seq(view_seq(ast@.take(i + 1)), base) == code_seq(prefix, base) + code_ast(
                view_ast(ast@[i as int]),
                base + len_seq(prefix),
            ));
            assert(self.program@ =~= start + code_seq(view_seq(ast@.take(i + 1)), base));
            i = i + 1;
        }
        assert(ast@.take(i as int) =~= ast@);
    }

    fn compile_alternation(&mut self, asts: &Vec<Vec<Ast>>)
        requires
            old(self).program.len() + len_alts(view_alts(asts@)) <= usize::MAX,
        ensures
            final(self).program@ == old(self).program@ + code_ast(
                view_ast(Ast::Or(*asts)),
                old(self).program.len() as int,
            ),
        decreases *asts, 0int,
    {
        let ghost start = self.program@;
        let ghost base = self.program.len() as int;
        let mut jmps: Vec<usize> = Vec::new();
        let mut i: usize = 0;
        assert(asts@.take(0) =~= Seq::<Vec<Ast>>::empty());
        assert(start + code_alts(view_alts(asts@.take(0)), base, 0, asts@.len()) =~= start);
        while i < asts.len()
            invariant
                i <= asts.len(),
                base == start.len(),
                base + len_alts(view_alts(asts@)) <= usize::MAX,
                self.program@ == start + code_alts(view_alts(asts@.take(i as int)), base, 0, asts@.len()),
                self.program.len() == base + len_alts(view_alts(asts@.take(i as int))),
                jmps@.map_values(|j: usize| j as int) == alt_jumps(view_alts(asts@.take(i as int)), base),
            decreases asts.len() - i,
        {
            let ghost done = view_alts(asts@.take(i as int));
            let ghost alt = view_seq(asts@[i as int]@);
            assert(asts@.take(i + 1).drop_last() =~= asts@.take(i as int));
            assert(view_alts(asts@.take(i + 1)) == done.push(alt));
            assert(done.push(alt).drop_last() =~= done);
            proof {
                lemma_view_alts_len(asts@.take(i + 1));
                lemma_len_alts_prefix(asts@, i + 1);
                lemma_len_alts(done, base, 0, asts@.len());
            }
            let idx = self.program.len();
            self.program.push(Instruction::Jmp(0));
            assert(decreases_to!(*asts => asts@[i as int]));
            self.compile_internal(asts[i].as_slice());
            proof {
                lemma_len_seq(alt, idx + 1);
            }
            self.program.push(Instruction::Jmp(0));
            let l2 = self.program.len();
            // The last alternative has no next one to fall through to.
            let other = if i + 1 == asts.len() {
                idx + 1
            } else {
                l2
            };
            self.program.set(idx, Instruction::Split(idx + 1, other));
            jmps.push(l2 - 1);
            assert(self.program@ =~= start + code_alts(view_alts(asts@.take(i + 1)), base, 0, asts@.len()));
            assert(jmps@.map_values(|j: usize| j as int) =~= alt_jumps(view_alts(asts@.take(i + 1)), base));
            i = i + 1;
        }
        assert(asts@.take(i as int) =~= asts@);
        let ghost alts = view_alts(asts@);
        proof {
            lemma_view_alts_len(asts@);
            lemma_view_or(*asts);
        }
        let ghost emitted = self.program@;
        let end = self.program.len();
        proof {
            lemma_alts_patch(alts, base, end as int, asts@.len());
            lemma_len_alts(alts, base, 0, asts@.len());
            lemma_len_alts(alts, base, end as int, asts@.len());
        }
        assert forall|t: int| 0 <= t < jmps.len() implies #[trigger] jmps@[t] < emitted.len() by {
            assert(jmps@.map_values(|x: usize| x as int)[t] == jmps@[t] as int);
        }
        let mut j: usize = 0;
        while j < jmps.len()
            invariant
                j <= jmps.len(),
                forall|t: int| 0 <= t < jmps.len() ==> #[trigger] jmps@[t] < emitted.len(),
                base == start.len(),
                end == base + len_alts(alts),
                emitted == start + code_alts(alts, base, 0, asts@.len()),
                jmps@.map_values(|x: usize| x as int) == alt_jumps(alts, base),
                self.program@.len() == emitted.len(),
                forall|k: int|
                    0 <= k < emitted.len() ==> #[trigger] self.program@[k] == if exists|t: int|
                        0 <= t < j && jmps@[t] == k {
                        Instruction::Jmp(end)
                    } else {
                        emitted[k]
                    },
            decreases jmps.len() - j,
        {
            assert(jmps@.map_values(|x: usize| x as int)[j as int] == jmps@[j as int] as int);
            self.program.set(jmps[j], Instruction::Jmp(end));
            j = j + 1;
        }
        assert forall|k: int| 0 <= k < emitted.len() implies #[trigger] self.program@[k] == (start
            + code_alts(alts, base, end as int, asts@.len()))[k] by {
            if k >= base {
                let js = alt_jumps(alts, base);
                if js.contains(k) {
                    let t = js.index_of(k);
                    assert(jmps@.map_values(|x: usize| x as int)[t] == jmps@[t] as int);
                } else {
                    if exists|t: int| 0 <= t < jmps.len() && jmps@[t] == k {
                        let t = choose|t: int| 0 <= t < jmps.len() && jmps@[t] == k;
                        assert(jmps@.map_values(|x: usize| x as int)[t] == jmps@[t] as int);
                        assert(js[t] == k);
                    }
                }
            } else {
                if exists|t: int| 0 <= t < jmps.len() && jmps@[t] == k {
                    let t = choose|t: int| 0 <= t < jmps.len() && jmps@[t] == k;
                    assert(jmps@.map_values(|x: usize| x as int)[t] == jmps@[t] as int);
                }
            }
        }
        assert(self.program@ =~= start + code_alts(alts, base, end as int, asts@.len()));
    }

    fn compile_fragment(&mut self, one: &One, modifier: &Modifier)
        requires
            old(self).program.len() + len_one(view_one(*one)) + modifier_len(*modifier) <= usize::MAX,
        ensures
            final(self).program@ == old(self).program@ + code_fragment(
                view_one(*one),
                *modifier,
                old(self).program.len() as int,
            ),
        decreases *one, 1int,
    {
        let ghost start = self.program@;
        let ghost o = view_one(*one);
        match modifier {
            Modifier::No => {
                self.compile_one(one);
            },
            Modifier::QMark => {
                let idx = self.program.len();
                let l1 = idx + 1;
                self.program.push(Instruction::Jmp(0));
                self.compile_one(one);
                proof {
                    lemma_len_one(o, l1 as int);
                }
                let l2 = self.program.len();
                self.program.set(idx, Instruction::Split(l1, l2));
                assert(self.program@ =~= start + code_fragment(o, *modifier, idx as int));
            },
            Modifier::Star => {
                let idx = self.program.len();
                let l1 = idx;
                let l2 = idx + 1;
                self.program.push(Instruction::Jmp(0));
                self.compile_one(one);
                proof {
                    lemma_len_one(o, l2 as int);
                }
                let l3 = self.program.len() + 1;
                self.program.set(idx, Instruction::Split(l2, l3));
                self.program.push(Instruction::Jmp(l1));
                assert(self.program@ =~= start + code_fragment(o, *modifier, idx as int));
            },
            Modifier::Plus => {
                let l1 = self.program.len();
                self.compile_one(one);
                proof {
                    lemma_len_one(o, l1 as int);
                }
                let l2 = self.program.len() + 1;
                self.program.push(Instruction::Split(l1, l2));
                assert(self.program@ =~= start + code_fragment(o, *modifier, l1 as int));
            },
        }
    }

    fn compile_one(&mut self, one: &One)
        requires
            old(self).program.len() + len_one(view_one(*one)) <= usize::MAX,
        ensures
            final(self).program@ == old(self).program@ + code_one(
                view_one(*one),
                old(self).program.len() as int,
            ),
        decreases *one, 0int,
    {
        let ghost start = self.program@;
        match one {
            One::Match(m) => {
                self.program.push(Instruction::Match(*m));
                assert(self.program@ =~= start + code_one(view_one(*one), start.len() as int));
            },
            One::Group(ast) => {
                self.compile_internal(ast.as_slice());
            },
        }
    }
}

/// `Succeed` ends the program and stands nowhere else in it.
pub open spec fn single_succeed(p: Seq<Instruction>) -> bool {
    forall|i: int| 0 <= i < p.len() ==> (#[trigger] p[i] is Succeed <==> i == p.len() - 1)
}

/// What compiling a pattern gives: its program, or the error that stopped
/// reading it.
pub open spec fn spec_compile(pattern: Seq<char>) -> Result<Seq<Instruction>, ParseError> {
    match spec_parse(pattern) {
        Ok(a) => Ok(code_program(a)),
        Err(e) => Err(e),
    }
}

/// Compiling is deterministic: any two programs that compiling one pattern
/// may give are the same instruction sequence.
pub proof fn lemma_compile_deterministic(
    pattern: Seq<char>,
    first: Seq<Instruction>,
    second: Seq<Instruction>,
)
    requires
        spec_compile(pattern) == Ok::<Seq<Instruction>, ParseError>(first),
        spec_compile(pattern) == Ok::<Seq<Instruction>, ParseError>(second),
    ensures
        first == second,
{
}

/// Parses `pattern` and compiles it to a program for the engine. The pattern
/// must be short enough for its program, at most three instructions per
/// character plus three, to be addressed.
pub fn compile(pattern: &str) -> (r: Result<Vec<Instruction>, ParseError>)
    requires
        3 * pattern@.len() + 3 < usize::MAX,
    ensures
        match r {
            Ok(v) => spec_compile(pattern@) == Ok::<Seq<Instruction>, ParseError>(v@) && wf_program(v@)
                && single_succeed(v@),
            Err(e) => spec_compile(pattern@) == Err::<Seq<Instruction>, ParseError>(e),
        },
{
    let mut parser = Parser::new(pattern);
    let mut compiler = Compiler::new();
    match parser.parse() {
        Ok(ast) => {
            proof {
                lemma_parse_len(pattern@);
                lemma_program_wf(view_seq(ast@));
            }
            compiler.compile(ast.as_slice());
            assert(compiler.program@ =~= code_program(view_seq(ast@)));
            Ok(compiler.program)
        },
        Err(e) => Err(e),
    }
}

} // verus!
