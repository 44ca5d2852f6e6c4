use vstd::prelude::*;
use crate::inst::Match;

verus! {

/// An atom or a parenthesised group.
#[derive(Debug)]
pub enum One {
    Match(Match),
    Group(Vec<Ast>),
}

/// The quantifier that follows an atom or group.
#[derive(Clone, Copy, Debug, PartialEq, Eq, Structural)]
pub enum Modifier {
    No,
    Plus,
    QMark,
    Star,
}

/// A node of the syntax tree.
#[derive(Debug)]
pub enum Ast {
    Or(Vec<Vec<Ast>>),
    Fragment(One, Modifier),
}

/// The mathematical form of `One`.
pub enum OneSpec {
    Match(Match),
    Group(Seq<AstSpec>),
}

/// The mathematical form of `Ast`: vectors become sequences.
pub enum AstSpec {
    Or(Seq<Seq<AstSpec>>),
    Fragment(OneSpec, Modifier),
}

/// The mathematical form of a sequence of nodes.
pub open spec fn view_seq(s: Seq<Ast>) -> Seq<AstSpec>
    decreases s, 0int,
{
    if s.len() == 0 {
        Seq::empty()
    } else {
        view_seq(s.drop_last()).push(view_ast(s.last()))
    }
}

/// The mathematical form of the alternatives of an alternation.
pub open spec fn view_alts(s: Seq<Vec<Ast>>) -> Seq<Seq<AstSpec>>
    decreases s, 0int,
{
    if s.len() == 0 {
        Seq::empty()
    } else {
        view_alts(s.drop_last()).push(view_seq(s.last()@))
    }
}

/// The mathematical form of an atom or group.
pub open spec fn view_one(o: One) -> OneSpec
    decreases o, 0int,
{
    match o {
        One::Match(m) => OneSpec::Match(m),
        One::Group(g) => OneSpec::Group(view_seq(g@)),
    }
}

/// The mathematical form of a node.
pub open spec fn view_ast(a: Ast) -> AstSpec
    decreases a, 0int,
{
    match a {
        Ast::Or(alts) => AstSpec::Or(view_alts(alts@)),
        Ast::Fragment(o, md) => AstSpec::Fragment(view_one(o), md),
    }
}


/// What can go wrong while reading a pattern.
#[derive(Clone, Copy, Debug, PartialEq, Eq, Structural)]
pub enum ParseError {
    /// A metacharacter stood where an atom was expected, at this character index.
    UnexpectedChar(char, usize),
    /// The pattern ended inside a group or right after a backslash.
    UnexpectedEndOfInput,
}

/// Characters that cannot start an atom.
pub open spec fn is_misplaced(c: char) -> bool {
    c == '?' || c == '*' || c == '+' || c == ')' || c == '|'
}

/// The quantifier a character stands for, `No` if it is none.
pub open spec fn modifier_of(c: char) -> Modifier {
    if c == '?' {
        Modifier::QMark
    } else if c == '*' {
        Modifier::Star
    } else if c == '+' {
        Modifier::Plus
    } else {
        Modifier::No
    }
}

/// Attaches the quantifier found at `q`, if any, and gives the position after it.
pub open spec fn with_modifier(s: Seq<char>, one: OneSpec, q: int) -> (AstSpec, int) {
    if 0 <= q < s.len() && modifier_of(s[q]) != Modifier::No {
        (AstSpec::Fragment(one, modifier_of(s[q])), q + 1)
    } else {
        (AstSpec::Fragment(one, Modifier::No), q)
    }
}

/// The sequence a parsed run of nodes stands for: the plain run, or one
/// alternation when a `|` was seen.
pub open spec fn close_seq(alts: Seq<Seq<AstSpec>>, acc: Seq<AstSpec>) -> Seq<AstSpec> {
    if alts.len() == 0 {
        acc
    } else {
        seq![AstSpec::Or(alts.push(acc))]
    }
}

/// Reads one quantified unit of `s` at `pos`: `Ok(None)` at the end of the
/// input, else the node and the position after it.
pub open spec fn spec_one(s: Seq<char>, pos: int) -> Result<Option<(AstSpec, int)>, ParseError>
    decreases s.len() - pos, 0int,
{
    if pos < 0 || pos >= s.len() {
        Ok(None)
    } else {
        let c = s[pos];
        if is_misplaced(c) {
            Err(ParseError::UnexpectedChar(c, pos as usize))
        } else if c == '(' {
            match spec_seq(s, pos + 1, Some(')'), Seq::empty(), Seq::empty()) {
                Err(e) => Err(e),
                Ok((g, found, e)) => if found {
                    Ok(Some(with_modifier(s, OneSpec::Group(g), e)))
                } else {
                    Err(ParseError::UnexpectedEndOfInput)
                },
            }
        } else if c == '.' {
            Ok(Some(with_modifier(s, OneSpec::Match(Match::Dot), pos + 1)))
        } else if c == '\\' {
            if pos + 1 < s.len() {
                Ok(Some(with_modifier(s, OneSpec::Match(Match::Char(s[pos + 1])), pos + 2)))
            } else {
                Err(ParseError::UnexpectedEndOfInput)
            }
        } else {
            Ok(Some(with_modifier(s, OneSpec::Match(Match::Char(c)), pos + 1)))
        }
    }
}

/// Reads a sequence of `s` from `pos`, having already closed the alternatives
/// `alts` and read `acc` of the current one. Stops at the end of the input or
/// after `delim`; gives the sequence, whether `delim` was found, and the
/// position where reading stopped.
pub open spec fn spec_seq(
    s: Seq<char>,
    pos: int,
    delim: Option<char>,
    alts: Seq<Seq<AstSpec>>,
    acc: Seq<AstSpec>,
) -> Result<(Seq<AstSpec>, bool, int), ParseError>
    decreases s.len() - pos, 1int,
{
    match spec_one(s, pos) {
        Err(e) => Err(e),
        Ok(None) => Ok((close_seq(alts, acc), false, pos)),
        Ok(Some((node, q))) => if q <= pos || q > s.len() {
            Ok((close_seq(alts, acc), false, pos))
        } else if q == s.len() {
            Ok((close_seq(alts, acc.push(node)), false, q))
        } else if s[q] == '|' {
            spec_seq(s, q + 1, delim, alts.push(acc.push(node)), Seq::empty())
        } else if delim == Some(s[q]) {
            Ok((close_seq(alts, acc.push(node)), true, q + 1))
        } else {
            spec_seq(s, q, delim, alts, acc.push(node))
        },
    }
}

/// The syntax tree of a whole pattern.
pub open spec fn spec_parse(s: Seq<char>) -> Result<Seq<AstSpec>, ParseError> {
    match spec_seq(s, 0, None, Seq::empty(), Seq::empty()) {
        Ok((a, _, _)) => Ok(a),
        Err(e) => Err(e),
    }
}


pub(crate) proof fn lemma_view_alts_len(s: Seq<Vec<Ast>>)
    ensures
        view_alts(s).len() == s.len(),
    decreases s.len(),
{
    if s.len() > 0 {
        lemma_view_alts_len(s.drop_last());
    }
}

pub(crate) proof fn lemma_view_or(alts: Vec<Vec<Ast>>)
    ensures
        view_ast(Ast::Or(alts)) == AstSpec::Or(view_alts(alts@)),
{
}

pub(crate) proof fn lemma_view_fragment(o: One, m: Modifier)
    ensures
        view_ast(Ast::Fragment(o, m)) == AstSpec::Fragment(view_one(o), m),
        o is Match ==> view_one(o) == OneSpec::Match(o->Match_0),
        o is Group ==> view_one(o) == OneSpec::Group(view_seq(o->Group_0@)),
{
}

fn modifier_for(c: char) -> (m: Modifier)
    ensures
        m == modifier_of(c),
{
    if c == '?' {
        Modifier::QMark
    } else if c == '*' {
        Modifier::Star
    } else if c == '+' {
        Modifier::Plus
    } else {
        Modifier::No
    }
}

/// A recursive-descent reader over the characters of a pattern.
pub struct Parser {
    chars: Vec<char>,
    pos: usize,
}

impl Parser {
    /// The characters of the pattern.
    pub closed spec fn text(&self) -> Seq<char> {
        self.chars@
    }

    /// The index of the next character to read.
    pub closed spec fn at(&self) -> int {
        self.pos as int
    }

    /// The reading position stays within the pattern.
    pub closed spec fn wf(&self) -> bool {
        self.pos <= self.chars.len()
    }

    /// A reader at the start of `pattern`.
    pub fn new(pattern: &str) -> (r: Parser)
        ensures
            r.wf(),
            r.text() == pattern@,
            r.at() == 0,
    {
        let mut chars: Vec<char> = Vec::new();
        for c in it: pattern.chars()
            invariant
                chars@ == it.seq().take(it.index() as int),
        {
            chars.push(c);
        }
        Parser { chars, pos: 0 }
    }

    /// Reads the pattern to its end.
    pub fn parse(&mut self) -> (r: Result<Vec<Ast>, ParseError>)
        requires
            old(self).wf(),
        ensures
            final(self).wf(),
            final(self).text() == old(self).text(),
            match (r, spec_seq(old(self).text(), old(self).at(), None, Seq::empty(), Seq::empty())) {
                (Ok(a), Ok((sa, _, _))) => view_seq(a@) == sa,
                (Err(e), Err(se)) => e == se,
                _ => false,
            },
    {
        match self.parse_fragment(None) {
            Ok((ast, _)) => Ok(ast),
            Err(e) => Err(e),
        }
    }

    /// Reads a sequence up to the end of the input or up to and including
    /// `delimiter`; says whether the delimiter was found.
    pub fn parse_fragment(&mut self, delimiter: Option<char>) -> (r: Result<
        (Vec<Ast>, bool),
        ParseError,
    >)
        requires
            old(self).wf(),
        ensures
            final(self).wf(),
            final(self).text() == old(self).text(),
            match (r, spec_seq(old(self).text(), old(self).at(), delimiter, Seq::empty(), Seq::empty())) {
                (Ok((a, found)), Ok((sa, sf, e))) => view_seq(a@) == sa && found == sf && final(self).at() == e
                    && old(self).at() <= e && (found ==> old(self).at() < e),
                (Err(e), Err(se)) => e == se,
                _ => false,
            },
        decreases old(self).text().len() - old(self).at(), 2int,
    {
        let ghost s = self.chars@;
        let ghost start = self.pos as int;
        let mut fragment: Vec<Vec<Ast>> = Vec::new();
        let mut ast: Vec<Ast> = Vec::new();
        let mut found_delimiter = false;
        assert(view_alts(fragment@) =~= Seq::<Seq<AstSpec>>::empty());
        assert(view_seq(ast@) =~= Seq::<AstSpec>::empty());
        loop
            invariant_except_break
                s == old(self).text(),
                start == old(self).at(),
                self.wf(),
                self.chars@ == s,
                start <= self.pos,
                !found_delimiter,
                spec_seq(s, start, delimiter, Seq::empty(), Seq::empty())
                    == spec_seq(s, self.pos as int, delimiter, view_alts(fragment@), view_seq(ast@)),
            ensures
                s == old(self).text(),
                start == old(self).at(),
                start <= self.pos,
                found_delimiter ==> start < self.pos,
                self.wf(),
                self.chars@ == s,
                spec_seq(s, start, delimiter, Seq::empty(), Seq::empty())
                    == Ok::<(Seq<AstSpec>, bool, int), ParseError>((close_seq(view_alts(fragment@), view_seq(ast@)), found_delimiter, self.pos as int)),
            decreases self.chars.len() - self.pos,
        {
            match self.parse_one() {
                Ok(Some(p)) => {
                    let ghost ast_before = ast@;
                    ast.push(p);
                    assert(ast@.drop_last() =~= ast_before);
                }
                Ok(None) => {
                    break;
                }
                Err(e) => {
                    return Err(e);
                }
            }
            if self.pos < self.chars.len() {
                let c = self.chars[self.pos];
                if c == '|' {
                    self.pos = self.pos + 1;
                    let ghost alts_before = fragment@;
                    fragment.push(ast);
                    ast = Vec::new();
                    assert(fragment@.drop_last() =~= alts_before);
                    assert(view_seq(ast@) =~= Seq::<AstSpec>::empty());
                } else if delimiter == Some(c) {
                    self.pos = self.pos + 1;
                    found_delimiter = true;
                    break;
                }
            } else {
                break;
            }
        }
        if fragment.len() == 0 {
            assert(view_alts(fragment@).len() == 0);
            Ok((ast, found_delimiter))
        } else {
            let ghost alts_before = fragment@;
            let ghost acc = view_seq(ast@);
            fragment.push(ast);
            assert(fragment@.drop_last() =~= alts_before);
            assert(view_alts(fragment@) == view_alts(alts_before).push(acc));
            let mut single: Vec<Ast> = Vec::new();
            let node = Ast::Or(fragment);
            let ghost node_view = view_ast(node);
            single.push(node);
            assert(single@.drop_last() =~= Seq::<Ast>::empty());
            assert(view_seq(single@) =~= seq![node_view]);
            Ok((single, found_delimiter))
        }
    }

    /// Reads one atom or group with its quantifier; `Ok(None)` at the end of
    /// the input.
    fn parse_one(&mut self) -> (r: Result<Option<Ast>, ParseError>)
        requires
            old(self).wf(),
        ensures
            final(self).wf(),
            final(self).text() == old(self).text(),
            match (r, spec_one(old(self).text(), old(self).at())) {
                (Ok(None), Ok(None)) => final(self).at() == old(self).at(),
                (Ok(Some(a)), Ok(Some((sa, q)))) => view_ast(a) == sa && final(self).at() == q
                    && old(self).at() < q,
                (Err(e), Err(se)) => e == se,
                _ => false,
            },
        decreases old(self).text().len() - old(self).at(), 1int,
    {
        if self.pos >= self.chars.len() {
            return Ok(None);
        }
        let ghost s = self.chars@;
        let i = self.pos;
        let c = self.chars[i];
        self.pos = self.pos + 1;
        let one = match c {
            '?' | '*' | '+' | ')' | '|' => {
                return Err(ParseError::UnexpectedChar(c, i));
            }
            '(' => match self.parse_group() {
                Ok(p) => One::Group(p),
                Err(e) => {
                    return Err(e);
                }
            },
            '.' => One::Match(Match::Dot),
            '\\' => {
                if self.pos < self.chars.len() {
                    let escaped = self.chars[self.pos];
                    self.pos = self.pos + 1;
                    One::Match(Match::Char(escaped))
                } else {
                    return Err(ParseError::UnexpectedEndOfInput);
                }
            }
            _ => One::Match(Match::Char(c)),
        };
        let ghost q = self.pos as int;
        let ghost one_view = view_one(one);
        proof {
            lemma_view_fragment(one, Modifier::No);
        }
        assert(spec_one(s, i as int) == Ok::<Option<(AstSpec, int)>, ParseError>(
            Some(with_modifier(s, one_view, q)),
        ));
        let mut modifier = Modifier::No;
        if self.pos < self.chars.len() {
            modifier = modifier_for(self.chars[self.pos]);
            match modifier {
                Modifier::No => {},
                _ => {
                    self.pos = self.pos + 1;
                },
            }
        }
        assert(with_modifier(s, one_view, q) == (AstSpec::Fragment(one_view, modifier), self.pos as int));
        let node = Ast::Fragment(one, modifier);
        proof {
            lemma_view_fragment(one, modifier);
        }
        Ok(Some(node))
    }

    /// Reads the body of a group whose `(` has been read, through its `)`.
    fn parse_group(&mut self) -> (r: Result<Vec<Ast>, ParseError>)
        requires
            old(self).wf(),
        ensures
            final(self).wf(),
            final(self).text() == old(self).text(),
            match (r, spec_seq(old(self).text(), old(self).at(), Some(')'), Seq::empty(), Seq::empty())) {
                (Ok(a), Ok((sa, true, e))) => view_seq(a@) == sa && final(self).at() == e
                    && old(self).at() < e,
                (Err(ParseError::UnexpectedEndOfInput), Ok((_, false, _))) => true,
                (Err(e), Err(se)) => e == se,
                _ => false,
            },
        decreases old(self).text().len() - old(self).at(), 3int,
    {
        match self.parse_fragment(Some(')')) {
            Ok((p, found_delimiter)) => if found_delimiter {
                Ok(p)
            } else {
                Err(ParseError::UnexpectedEndOfInput)
            },
            Err(e) => Err(e),
        }
    }
}

} // verus!
