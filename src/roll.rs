//! Dice-roll expressions: tokens, grammar, and evaluation against a source
//! of die faces.

use vstd::prelude::*;

verus! {

/// A parsed dice expression.
#[derive(Debug)]
pub enum RollExpr {
    Add(Box<RollExpr>, Box<RollExpr>),
    Sub(Box<RollExpr>, Box<RollExpr>),
    Roll { count: u8, die: u8, kh: Option<u8> },
    Const(u8),
}

/// The outcome of evaluating a `RollExpr`: its total and the die faces
/// that contributed to it, in order.
#[derive(Debug)]
pub struct Roll(i32, Vec<u8>);

impl Roll {
    pub closed spec fn total(&self) -> int {
        self.0 as int
    }

    pub closed spec fn faces(&self) -> Seq<u8> {
        self.1@
    }

    pub fn value(&self) -> (r: i32)
        ensures
            r == self.total(),
    {
        self.0
    }

    pub fn dice(&self) -> (r: &Vec<u8>)
        ensures
            r@ == self.faces(),
    {
        &self.1
    }
}

/// Sum of a sequence of faces.
pub open spec fn face_sum(s: Seq<u8>) -> int
    decreases s.len(),
{
    if s.len() == 0 {
        0
    } else {
        face_sum(s.drop_last()) + s.last() as int
    }
}

/// Non-decreasing order.
pub open spec fn ascending(s: Seq<u8>) -> bool {
    forall|i: int, j: int| 0 <= i <= j < s.len() ==> s[i] <= s[j]
}

/// The order on faces.
pub open spec fn face_leq() -> spec_fn(u8, u8) -> bool {
    |a: u8, b: u8| a <= b
}

/// The faces of `s` in ascending order.
pub open spec fn sorted_faces(s: Seq<u8>) -> Seq<u8> {
    s.sort_by(face_leq())
}

proof fn lemma_sorted_faces(s: Seq<u8>, p: Seq<u8>)
    requires
        ascending(p),
        p.to_multiset() == s.to_multiset(),
    ensures
        sorted_faces(s) == p,
        ascending(sorted_faces(s)),
{
    let leq = face_leq();
    assert(vstd::relations::total_ordering(leq));
    s.lemma_sort_by_ensures(leq);
    assert(vstd::relations::sorted_by(p, leq));
    vstd::seq_lib::lemma_sorted_unique(p, sorted_faces(s), leq);
}

/// How many faces a roll of `count` dice keeps under an optional limit.
pub open spec fn kept_count(count: u8, kh: Option<u8>) -> nat {
    match kh {
        Some(k) => if (k as nat) < (count as nat) { k as nat } else { count as nat },
        None => count as nat,
    }
}

/// Relies on the slice sort of std: the result is in ascending order and is a
/// permutation of the input.
#[verifier::external_body]
fn sort_faces(v: &mut Vec<u8>)
    ensures
        ascending(final(v)@),
        final(v)@.to_multiset() == old(v)@.to_multiset(),
{
    v.sort();
}

proof fn lemma_face_sum_bound(s: Seq<u8>, die: u8)
    requires
        forall|i: int| 0 <= i < s.len() ==> s[i] <= die,
    ensures
        0 <= face_sum(s) <= s.len() * (die as int),
    decreases s.len(),
{
    if s.len() > 0 {
        lemma_face_sum_bound(s.drop_last(), die);
        assert(s.drop_last().len() * (die as int) + die as int == s.len() * (die as int))
            by (nonlinear_arith)
            requires
                s.drop_last().len() + 1 == s.len(),
        ;
    }
}

/// Sorts the drawn faces ascending and keeps the first `kh` of them (all when
/// `kh` is absent): the smallest faces, whatever the limit's name suggests.
/// The total is the sum of the kept faces.
pub fn keep_lowest(faces: Vec<u8>, kh: Option<u8>) -> (r: Roll)
    requires
        faces@.len() <= 255,
    ensures
        r.faces() == sorted_faces(faces@).take(kept_count(faces@.len() as u8, kh) as int),
        ascending(sorted_faces(faces@)),
        sorted_faces(faces@).to_multiset() == faces@.to_multiset(),
        r.total() == face_sum(r.faces()),
{
    let mut v = faces;
    sort_faces(&mut v);
    let ghost p = v@;
    proof {
        faces@.to_multiset_ensures();
        p.to_multiset_ensures();
        lemma_sorted_faces(faces@, p);
    }
    match kh {
        Some(k) => {
            v.truncate(k as usize);
        },
        None => {},
    }
    assert(v@ == p.take(kept_count(faces@.len() as u8, kh) as int));
    let mut sum: i32 = 0;
    let mut i: usize = 0;
    while i < v.len()
        invariant
            i <= v@.len() <= 255,
            sum == face_sum(v@.take(i as int)),
            0 <= sum <= 255 * i,
        decreases v@.len() - i,
    {
        assert(v@.take(i as int + 1).drop_last() == v@.take(i as int));
        sum = sum + v[i] as i32;
        i = i + 1;
    }
    assert(v@.take(i as int) == v@);
    Roll(sum, v)
}


/// Where die faces come from: the process's random generator, or a fixed
/// sequence that is read in a cycle, for reproducible evaluation.
pub struct DiceSource {
    fixed: Option<Vec<u8>>,
    next: usize,
}

/// A face in `[1, die]` taken from a supplied value: values below the range
/// give 1, values above it give `die`.
pub open spec fn clamp_face(v: u8, die: u8) -> u8 {
    if v < 1 {
        1
    } else if v > die {
        die
    } else {
        v
    }
}

/// Relies on rand's `thread_rng` and `Rng::gen_range` over `1..=die`, which
/// yields a value inside the inclusive range and panics only when it is empty.
#[verifier::external_body]
fn random_face(die: u8) -> (r: u8)
    requires
        1 <= die,
    ensures
        1 <= r <= die,
{
    rand::Rng::gen_range(&mut rand::thread_rng(), 1..=die)
}

/// The face that a fixed source holding `fs` yields at `pos` for a die of
/// `die` sides.
pub open spec fn face_at(fs: Seq<u8>, pos: nat, die: u8) -> u8 {
    if fs.len() == 0 {
        1
    } else {
        clamp_face(fs[pos as int], die)
    }
}

/// The position a fixed source holding `fs` moves to after a draw at `pos`.
pub open spec fn pos_after(fs: Seq<u8>, pos: nat) -> nat {
    if fs.len() == 0 {
        pos
    } else {
        (pos + 1) % fs.len()
    }
}

/// The `n` faces that a fixed source holding `fs` yields from `pos` on.
pub open spec fn fixed_draws(fs: Seq<u8>, pos: nat, n: nat, die: u8) -> Seq<u8>
    decreases n,
{
    if n == 0 {
        Seq::empty()
    } else {
        seq![face_at(fs, pos, die)] + fixed_draws(fs, pos_after(fs, pos), (n - 1) as nat, die)
    }
}

/// The position of a fixed source holding `fs` after `n` draws from `pos`.
pub open spec fn pos_after_draws(fs: Seq<u8>, pos: nat, n: nat) -> nat
    decreases n,
{
    if n == 0 {
        pos
    } else {
        pos_after_draws(fs, pos_after(fs, pos), (n - 1) as nat)
    }
}

impl DiceSource {
    /// The supplied faces of a fixed source; `None` for a random one.
    pub closed spec fn fixed_faces(&self) -> Option<Seq<u8>> {
        match self.fixed {
            Some(v) => Some(v@),
            None => None,
        }
    }

    /// Index of the supplied face that the next draw reads.
    pub closed spec fn position(&self) -> nat {
        self.next as nat
    }

    pub closed spec fn wf(&self) -> bool {
        match self.fixed {
            Some(v) => v@.len() == 0 || self.next < v@.len(),
            None => self.next == 0,
        }
    }

    pub fn random() -> (r: DiceSource)
        ensures
            r.wf(),
            r.fixed_faces() is None,
    {
        DiceSource { fixed: None, next: 0 }
    }

    pub fn fixed(faces: Vec<u8>) -> (r: DiceSource)
        ensures
            r.wf(),
            r.fixed_faces() == Some(faces@),
            r.position() == 0,
    {
        DiceSource { fixed: Some(faces), next: 0 }
    }

    /// Draws one face of a die with `die` sides. A fixed source reads its
    /// faces in order, starting over after the last, and yields 1 when it
    /// holds none.
    pub fn next_face(&mut self, die: u8) -> (r: u8)
        requires
            old(self).wf(),
            1 <= die,
        ensures
            final(self).wf(),
            1 <= r <= die,
            final(self).fixed_faces() == old(self).fixed_faces(),
            old(self).fixed_faces() matches Some(f) ==> r == face_at(f, old(self).position(), die)
                && final(self).position() == pos_after(f, old(self).position()),
    {
        match &self.fixed {
            None => random_face(die),
            Some(v) => {
                if v.len() == 0 {
                    1
                } else {
                    let x = v[self.next];
                    let face = if x < 1 {
                        1
                    } else if x > die {
                        die
                    } else {
                        x
                    };
                    self.next = (self.next + 1) % v.len();
                    face
                }
            },
        }
    }
}

impl RollExpr {
    /// Number of faces an evaluation keeps.
    pub open spec fn kept(&self) -> nat
        decreases self,
    {
        match self {
            RollExpr::Add(l, r) => l.kept() + r.kept(),
            RollExpr::Sub(l, r) => l.kept() + r.kept(),
            RollExpr::Roll { count, die, kh } => kept_count(*count, *kh),
            RollExpr::Const(_) => 0,
        }
    }

    /// Largest magnitude a total can have.
    pub open spec fn weight(&self) -> nat
        decreases self,
    {
        match self {
            RollExpr::Add(l, r) => l.weight() + r.weight(),
            RollExpr::Sub(l, r) => l.weight() + r.weight(),
            RollExpr::Roll { count, die, kh } => (*count as nat) * (*die as nat),
            RollExpr::Const(n) => *n as nat,
        }
    }

    /// Every roll that draws at least one die has at least one side.
    pub open spec fn dice_have_sides(&self) -> bool
        decreases self,
    {
        match self {
            RollExpr::Add(l, r) => l.dice_have_sides() && r.dice_have_sides(),
            RollExpr::Sub(l, r) => l.dice_have_sides() && r.dice_have_sides(),
            RollExpr::Roll { count, die, kh } => *count == 0 || *die >= 1,
            RollExpr::Const(_) => true,
        }
    }

    /// The kept faces that evaluating from a fixed source holding `fs`, at
    /// position `pos`, yields.
    pub open spec fn fixed_kept(&self, fs: Seq<u8>, pos: nat) -> Seq<u8>
        decreases self,
    {
        match self {
            RollExpr::Add(l, r) => l.fixed_kept(fs, pos) + r.fixed_kept(fs, l.fixed_next(fs, pos)),
            RollExpr::Sub(l, r) => l.fixed_kept(fs, pos) + r.fixed_kept(fs, l.fixed_next(fs, pos)),
            RollExpr::Roll { count, die, kh } => sorted_faces(
                fixed_draws(fs, pos, *count as nat, *die),
            ).take(kept_count(*count, *kh) as int),
            RollExpr::Const(_) => Seq::empty(),
        }
    }

    /// The position a fixed source holding `fs` is left at.
    pub open spec fn fixed_next(&self, fs: Seq<u8>, pos: nat) -> nat
        decreases self,
    {
        match self {
            RollExpr::Add(l, r) => r.fixed_next(fs, l.fixed_next(fs, pos)),
            RollExpr::Sub(l, r) => r.fixed_next(fs, l.fixed_next(fs, pos)),
            RollExpr::Roll { count, .. } => pos_after_draws(fs, pos, *count as nat),
            RollExpr::Const(_) => pos,
        }
    }

    /// An expression that evaluates without a die of no sides and whose total
    /// fits an `i32`.
    pub open spec fn rollable(&self) -> bool {
        self.dice_have_sides() && self.weight() <= i32::MAX
    }

    /// `d` is a possible sequence of kept faces: each roll contributes its
    /// kept faces in ascending order, each within its die, left to right.
    pub open spec fn possible_faces(&self, d: Seq<u8>) -> bool
        decreases self,
    {
        d.len() == self.kept() && match self {
            RollExpr::Add(l, r) => l.possible_faces(d.take(l.kept() as int)) && r.possible_faces(
                d.skip(l.kept() as int),
            ),
            RollExpr::Sub(l, r) => l.possible_faces(d.take(l.kept() as int)) && r.possible_faces(
                d.skip(l.kept() as int),
            ),
            RollExpr::Roll { count, die, kh } => ascending(d) && forall|i: int|
                0 <= i < d.len() ==> 1 <= #[trigger] d[i] <= *die,
            RollExpr::Const(_) => true,
        }
    }

    /// The total that the kept faces `d` give.
    pub open spec fn total_of(&self, d: Seq<u8>) -> int
        decreases self,
    {
        match self {
            RollExpr::Add(l, r) => l.total_of(d.take(l.kept() as int)) + r.total_of(
                d.skip(l.kept() as int),
            ),
            RollExpr::Sub(l, r) => l.total_of(d.take(l.kept() as int)) - r.total_of(
                d.skip(l.kept() as int),
            ),
            RollExpr::Roll { .. } => face_sum(d),
            RollExpr::Const(n) => *n as int,
        }
    }

    fn checked_weight(&self) -> (r: Option<u32>)
        ensures
            r == (if self.rollable() {
                Some(self.weight() as u32)
            } else {
                None::<u32>
            }),
        decreases self,
    {
        match self {
            RollExpr::Add(l, r) | RollExpr::Sub(l, r) => {
                match (l.checked_weight(), r.checked_weight()) {
                    (Some(a), Some(b)) => {
                        if a as u64 + b as u64 <= i32::MAX as u64 {
                            Some(a + b)
                        } else {
                            None
                        }
                    },
                    _ => None,
                }
            },
            RollExpr::Roll { count, die, kh } => {
                if *count != 0 && *die == 0 {
                    None
                } else {
                    assert((*count as int) * (*die as int) <= 255 * 255) by (nonlinear_arith)
                        requires
                            *count <= 255,
                            *die <= 255,
                    ;
                    let w = *count as u32 * *die as u32;
                    if w <= i32::MAX as u32 {
                        Some(w)
                    } else {
                        None
                    }
                }
            },
            RollExpr::Const(n) => Some(*n as u32),
        }
    }

    /// Whether `roll` may be called on this expression.
    pub fn can_roll(&self) -> (r: bool)
        ensures
            r == self.rollable(),
    {
        self.checked_weight().is_some()
    }

    /// Evaluates the expression, drawing faces from `src`: each roll draws
    /// its own dice, keeps the lowest as `keep_lowest` does, and the sides of
    /// a sum or difference are evaluated left, then right.
    pub fn roll(&self, src: &mut DiceSource) -> (r: Roll)
        requires
            self.rollable(),
            old(src).wf(),
        ensures
            final(src).wf(),
            final(src).fixed_faces() == old(src).fixed_faces(),
            self.possible_faces(r.faces()),
            r.total() == self.total_of(r.faces()),
            -(self.weight() as int) <= r.total() <= self.weight(),
            old(src).fixed_faces() is None ==> final(src).position() == old(src).position(),
            old(src).fixed_faces() matches Some(fs) ==> r.faces() == self.fixed_kept(
                fs,
                old(src).position(),
            ) && final(src).position() == self.fixed_next(fs, old(src).position()),
        decreases self,
    {
        match self {
            RollExpr::Add(l, r) => {
                let Roll(x, mut xs) = l.roll(src);
                let Roll(y, mut ys) = r.roll(src);
                let ghost (a, b) = (xs@, ys@);
                xs.append(&mut ys);
                assert(xs@.take(l.kept() as int) == a);
                assert(xs@.skip(l.kept() as int) == b);
                Roll(x + y, xs)
            },
            RollExpr::Sub(l, r) => {
                let Roll(x, mut xs) = l.roll(src);
                let Roll(y, mut ys) = r.roll(src);
                let ghost (a, b) = (xs@, ys@);
                xs.append(&mut ys);
                assert(xs@.take(l.kept() as int) == a);
                assert(xs@.skip(l.kept() as int) == b);
                Roll(x - y, xs)
            },
            RollExpr::Roll { count, die, kh } => {
                let mut drawn: Vec<u8> = Vec::new();
                let mut i: u8 = 0;
                let ghost first_pos = src.position();
                while i < *count
                    invariant
                        src.fixed_faces() matches Some(fs) ==> drawn@ + fixed_draws(
                            fs,
                            src.position(),
                            (*count - i) as nat,
                            *die,
                        ) == fixed_draws(fs, first_pos, *count as nat, *die) && pos_after_draws(
                            fs,
                            src.position(),
                            (*count - i) as nat,
                        ) == pos_after_draws(fs, first_pos, *count as nat),
                        src.wf(),
                        src.fixed_faces() == old(src).fixed_faces(),
                        drawn@.len() == i,
                        i <= *count,
                        *count == 0 || *die >= 1,
                        forall|j: int| 0 <= j < drawn@.len() ==> 1 <= #[trigger] drawn@[j] <= *die,
                    decreases *count - i,
                {
                    let ghost before = drawn@;
                    let ghost at = src.position();
                    let face = src.next_face(*die);
                    drawn.push(face);
                    proof {
                        if let Some(fs) = src.fixed_faces() {
                            let rest = fixed_draws(fs, src.position(), (*count - i - 1) as nat, *die);
                            assert(fixed_draws(fs, at, (*count - i) as nat, *die) == seq![face] + rest);
                            assert(before + (seq![face] + rest) =~= drawn@ + rest);
                        }
                    }
                    i = i + 1;
                }
                let ghost d = drawn@;
                proof {
                    if let Some(fs) = src.fixed_faces() {
                        assert(d + Seq::<u8>::empty() == d);
                    }
                }
                let out = keep_lowest(drawn, *kh);
                proof {
                    let p = sorted_faces(d);
                    p.to_multiset_ensures();
                    d.to_multiset_ensures();
                    assert forall|j: int| 0 <= j < p.len() implies 1 <= #[trigger] p[j] <= *die by {
                        assert(p.contains(p[j]));
                        assert(d.to_multiset().count(p[j]) > 0);
                        assert(d.contains(p[j]));
                    }
                    lemma_face_sum_bound(out.faces(), *die);
                    assert(out.faces().len() * (*die as int) <= (*count as int) * (*die as int))
                        by (nonlinear_arith)
                        requires
                            out.faces().len() <= *count as int,
                    ;
                }
                out
            },
            RollExpr::Const(n) => Roll(*n as i32, Vec::new()),
        }
    }
}

/// Two evaluations of one expression from fixed sources in the same state
/// keep the same faces and reach the same total.
pub proof fn law_fixed_rolls_reproduce(e: RollExpr, fs: Seq<u8>, pos: nat, a: Roll, b: Roll)
    requires
        a.faces() == e.fixed_kept(fs, pos),
        a.total() == e.total_of(a.faces()),
        b.faces() == e.fixed_kept(fs, pos),
        b.total() == e.total_of(b.faces()),
    ensures
        a.faces() == b.faces(),
        a.total() == b.total(),
{
}

/// A lexical unit of a dice expression.
#[derive(Clone, Copy, Debug, PartialEq, Eq, Structural)]
pub enum Token {
    Const(u8),
    Plus,
    Minus,
    D,
    Kh,
}

/// Why a dice expression was refused: an unrecognised character or a number
/// that does not fit a byte (`Token`), or tokens that do not form an
/// expression (`Parse`).
#[derive(Clone, Copy, Debug, PartialEq, Eq, Structural)]
pub enum ParseError {
    Parse,
    Token,
}

impl ParseError {
    /// The error's name, as text.
    pub fn describe(&self) -> (r: String)
        ensures
            r@ == (match self {
                ParseError::Parse => "Parse"@,
                ParseError::Token => "Token"@,
            }),
    {
        match self {
            ParseError::Parse => {
                proof {
                    reveal_strlit("Parse");
                }
                String::from_str("Parse")
            },
            ParseError::Token => {
                proof {
                    reveal_strlit("Token");
                }
                String::from_str("Token")
            },
        }
    }
}

pub open spec fn is_digit(c: char) -> bool {
    '0' <= c <= '9'
}

pub open spec fn digit_of(c: char) -> nat {
    (c as nat - '0' as nat) as nat
}

/// The characters that Unicode gives the White_Space property.
pub open spec fn is_space(c: char) -> bool {
    ||| '\u{9}' <= c <= '\u{d}'
    ||| c == ' '
    ||| c == '\u{85}'
    ||| c == '\u{a0}'
    ||| c == '\u{1680}'
    ||| '\u{2000}' <= c <= '\u{200a}'
    ||| c == '\u{2028}'
    ||| c == '\u{2029}'
    ||| c == '\u{202f}'
    ||| c == '\u{205f}'
    ||| c == '\u{3000}'
}

fn space_char(c: char) -> (r: bool)
    ensures
        r == is_space(c),
{
    ('\u{9}' <= c && c <= '\u{d}') || c == ' ' || c == '\u{85}' || c == '\u{a0}' || c == '\u{1680}'
        || ('\u{2000}' <= c && c <= '\u{200a}') || c == '\u{2028}' || c == '\u{2029}' || c
        == '\u{202f}' || c == '\u{205f}' || c == '\u{3000}'
}

/// `rest` with the tokens `ts` in front, when there is a `rest`.
pub open spec fn after(ts: Seq<Token>, rest: Option<Seq<Token>>) -> Option<Seq<Token>> {
    match rest {
        Some(r) => Some(ts + r),
        None => None,
    }
}

/// `rest` preceded by the number that a run of digits spelled, if any; a
/// number above 255 is refused.
pub open spec fn flush(pending: Option<nat>, rest: Option<Seq<Token>>) -> Option<Seq<Token>> {
    match pending {
        None => rest,
        Some(v) => if v > 255 {
            None
        } else {
            after(seq![Token::Const(v as u8)], rest)
        },
    }
}

/// The tokens of `s` from index `i` on, where `pending` is the value of the
/// digits read just before `i`; `None` when `s` cannot be tokenized.
pub open spec fn lex(s: Seq<char>, i: int, pending: Option<nat>) -> Option<Seq<Token>>
    decreases s.len() - i,
{
    if i < 0 || i >= s.len() {
        flush(pending, Some(Seq::empty()))
    } else if is_digit(s[i]) {
        let v = match pending {
            Some(p) => p * 10 + digit_of(s[i]),
            None => digit_of(s[i]),
        };
        lex(s, i + 1, Some(v))
    } else {
        flush(
            pending,
            if s[i] == '+' {
                after(seq![Token::Plus], lex(s, i + 1, None))
            } else if s[i] == '-' {
                after(seq![Token::Minus], lex(s, i + 1, None))
            } else if s[i] == 'd' {
                after(seq![Token::D], lex(s, i + 1, None))
            } else if s[i] == 'k' {
                if i + 1 < s.len() && s[i + 1] == 'h' {
                    after(seq![Token::Kh], lex(s, i + 2, None))
                } else {
                    None
                }
            } else if is_space(s[i]) {
                lex(s, i + 1, None)
            } else {
                None
            },
        )
    }
}

proof fn lemma_after_push(ts: Seq<Token>, t: Token, rest: Option<Seq<Token>>)
    ensures
        after(ts, after(seq![t], rest)) == after(ts.push(t), rest),
{
    if let Some(r) = rest {
        assert(ts + (seq![t] + r) =~= ts.push(t) + r);
    }
}

/// Splits `s` into tokens: maximal runs of ASCII digits become numbers,
/// `+`, `-`, `d` and `kh` their tokens, and white space is skipped.
pub fn tokenize(s: &str) -> (r: Result<Vec<Token>, ParseError>)
    ensures
        match lex(s@, 0, None) {
            Some(ts) => r is Ok && r->Ok_0@ == ts,
            None => r == Err::<Vec<Token>, ParseError>(ParseError::Token),
        },
{
    let n = s.unicode_len();
    let mut tokens: Vec<Token> = Vec::new();
    let mut i: usize = 0;
    let mut pend: Option<u32> = None;
    let ghost mut gp: Option<nat> = None;
    while i < n
        invariant
            n == s@.len(),
            i <= n,
            lex(s@, 0, None) == after(tokens@, lex(s@, i as int, gp)),
            pend is None <==> gp is None,
            pend is Some ==> pend->0 <= 2559 && (pend->0 <= 255 ==> gp->0 == pend->0) && (
            pend->0 > 255 ==> gp->0 > 255),
        decreases n - i,
    {
        let c = s.get_char(i);
        if '0' <= c && c <= '9' {
            let d = (c as u32) - ('0' as u32);
            let ghost v = match gp {
                Some(p) => p * 10 + digit_of(c),
                None => digit_of(c),
            };
            pend = match pend {
                None => Some(d),
                Some(p) => if p > 255 {
                    Some(p)
                } else {
                    Some(p * 10 + d)
                },
            };
            proof {
                gp = Some(v);
            }
            i = i + 1;
        } else {
            if let Some(p) = pend {
                if p > 255 {
                    return Err(ParseError::Token);
                }
                proof {
                    lemma_after_push(tokens@, Token::Const(p as u8), lex(s@, i as int, None));
                }
                tokens.push(Token::Const(p as u8));
            }
            assert(lex(s@, 0, None) == after(tokens@, lex(s@, i as int, None)));
            proof {
                gp = None;
            }
            pend = None;
            if c == '+' {
                proof {
                    lemma_after_push(tokens@, Token::Plus, lex(s@, i + 1, None));
                }
                tokens.push(Token::Plus);
                i = i + 1;
            } else if c == '-' {
                proof {
                    lemma_after_push(tokens@, Token::Minus, lex(s@, i + 1, None));
                }
                tokens.push(Token::Minus);
                i = i + 1;
            } else if c == 'd' {
                proof {
                    lemma_after_push(tokens@, Token::D, lex(s@, i + 1, None));
                }
                tokens.push(Token::D);
                i = i + 1;
            } else if c == 'k' {
                if i + 1 < n && s.get_char(i + 1) == 'h' {
                    proof {
                        lemma_after_push(tokens@, Token::Kh, lex(s@, i + 2, None));
                    }
                    tokens.push(Token::Kh);
                    i = i + 2;
                } else {
                    return Err(ParseError::Token);
                }
            } else if space_char(c) {
                i = i + 1;
            } else {
                return Err(ParseError::Token);
            }
        }
    }
    if let Some(p) = pend {
        if p > 255 {
            return Err(ParseError::Token);
        }
        proof {
            lemma_after_push(tokens@, Token::Const(p as u8), Some(Seq::empty()));
        }
        tokens.push(Token::Const(p as u8));
    }
    assert(tokens@ + Seq::<Token>::empty() == tokens@);
    Ok(tokens)
}

/// The term that starts at index `i` of `t`, and the index after it: a
/// number, `C d C`, or `C d C kh C`, read as long as it extends.
pub open spec fn term_at(t: Seq<Token>, i: int) -> Option<(RollExpr, int)> {
    if 0 <= i < t.len() && t[i] is Const {
        let c = t[i]->Const_0;
        if t.len() - i > 2 && t[i + 1] == Token::D && t[i + 2] is Const {
            let die = t[i + 2]->Const_0;
            if t.len() - i > 4 && t[i + 3] == Token::Kh && t[i + 4] is Const {
                Some((RollExpr::Roll { count: c, die, kh: Some(t[i + 4]->Const_0) }, i + 5))
            } else {
                Some((RollExpr::Roll { count: c, die, kh: None }, i + 3))
            }
        } else {
            Some((RollExpr::Const(c), i + 1))
        }
    } else {
        None
    }
}

/// The expression made of `acc` and the signed terms of `t` from `i` on,
/// grouped to the left.
pub open spec fn chain_from(t: Seq<Token>, i: int, acc: RollExpr) -> Option<RollExpr>
    decreases t.len() - i,
{
    if i < 0 || i >= t.len() {
        Some(acc)
    } else if t[i] == Token::Plus || t[i] == Token::Minus {
        match term_at(t, i + 1) {
            Some((e, j)) => chain_from(
                t,
                j,
                if t[i] == Token::Plus {
                    RollExpr::Add(Box::new(acc), Box::new(e))
                } else {
                    RollExpr::Sub(Box::new(acc), Box::new(e))
                },
            ),
            None => None,
        }
    } else {
        None
    }
}

/// The expression that the tokens `t` spell: terms separated by `+` or `-`,
/// left-associative; `None` when they spell none.
pub open spec fn grammar(t: Seq<Token>) -> Option<RollExpr> {
    match term_at(t, 0) {
        Some((e, j)) => chain_from(t, j, e),
        None => None,
    }
}

/// The expression that the text `s` denotes, or the error that refuses it.
pub open spec fn parsed(s: Seq<char>) -> Result<RollExpr, ParseError> {
    match lex(s, 0, None) {
        None => Err(ParseError::Token),
        Some(t) => match grammar(t) {
            Some(e) => Ok(e),
            None => Err(ParseError::Parse),
        },
    }
}

fn read_term(t: &Vec<Token>, i: usize) -> (r: Option<(RollExpr, usize)>)
    ensures
        match term_at(t@, i as int) {
            Some((e, j)) => r == Some((e, j as usize)) && j <= t@.len(),
            None => r is None,
        },
{
    if i < t.len() {
        if let Token::Const(c) = t[i] {
            if t.len() - i > 2 && t[i + 1] == Token::D {
                if let Token::Const(die) = t[i + 2] {
                    if t.len() - i > 4 && t[i + 3] == Token::Kh {
                        if let Token::Const(k) = t[i + 4] {
                            return Some((RollExpr::Roll { count: c, die, kh: Some(k) }, i + 5));
                        }
                    }
                    return Some((RollExpr::Roll { count: c, die, kh: None }, i + 3));
                }
            }
            return Some((RollExpr::Const(c), i + 1));
        }
    }
    None
}

/// Builds the expression that a token sequence spells.
pub fn parse_tokens(t: &Vec<Token>) -> (r: Result<RollExpr, ParseError>)
    ensures
        r == (match grammar(t@) {
            Some(e) => Ok(e),
            None => Err(ParseError::Parse),
        }),
{
    let (mut acc, mut i) = match read_term(t, 0) {
        Some(p) => p,
        None => return Err(ParseError::Parse),
    };
    while i < t.len()
        invariant
            i <= t@.len(),
            grammar(t@) == chain_from(t@, i as int, acc),
        decreases t@.len() - i,
    {
        let op = t[i];
        if op == Token::Plus || op == Token::Minus {
            let (e, j) = match read_term(t, i + 1) {
                Some(p) => p,
                None => return Err(ParseError::Parse),
            };
            acc = if op == Token::Plus {
                RollExpr::Add(Box::new(acc), Box::new(e))
            } else {
                RollExpr::Sub(Box::new(acc), Box::new(e))
            };
            i = j;
        } else {
            return Err(ParseError::Parse);
        }
    }
    Ok(acc)
}

impl RollExpr {
    /// Reads a dice expression such as `4d6kh3` or `1d20+5`.
    pub fn parse(s: &str) -> (r: Result<RollExpr, ParseError>)
        ensures
            r == parsed(s@),
    {
        match tokenize(s) {
            Err(e) => Err(e),
            Ok(t) => parse_tokens(&t),
        }
    }
}

impl std::str::FromStr for RollExpr {
    type Err = ParseError;

    fn from_str(s: &str) -> (r: Result<RollExpr, ParseError>)
        ensures
            r == parsed(s@),
    {
        RollExpr::parse(s)
    }
}

} // verus!
