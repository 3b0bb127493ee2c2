//! Cutting an expression into operands and the operators between them.
//!
//! The text is walked once from the left. Round brackets nest, and what
//! stands inside the outermost pair is kept as the text of one operand, to be
//! evaluated on its own. An operator character cuts the text only where no
//! bracket is open and a space stands on both sides of it.

use crate::reduce::is_operator;
use vstd::prelude::*;

verus! {

/// The text of one operand, and whether a bracket was opened in it.
pub ghost struct Piece {
    pub text: Seq<char>,
    pub bracketed: bool,
}

/// What is known after a part of the text was walked.
pub ghost struct Scan {
    /// The operands that an operator has closed.
    pub pieces: Seq<Piece>,
    /// The operators met so far.
    pub operators: Seq<char>,
    /// The text of the operand that is being read.
    pub buffer: Seq<char>,
    /// Whether a bracket was opened in the operand that is being read.
    pub bracketed: bool,
    /// How many brackets are open.
    pub depth: nat,
    /// Whether a `)` was met where no bracket was open. The walk ends there.
    pub unmatched: bool,
}

/// What an expression was cut into.
pub ghost struct Cut {
    pub pieces: Seq<Piece>,
    pub operators: Seq<char>,
    /// Whether a `)` was met where no bracket was open. The operands are
    /// then those that stand before it and were closed by an operator.
    pub unmatched: bool,
}

/// Before the first character.
pub open spec fn start() -> Scan {
    Scan {
        pieces: Seq::empty(),
        operators: Seq::empty(),
        buffer: Seq::empty(),
        bracketed: false,
        depth: 0,
        unmatched: false,
    }
}

/// Whether the character at `i` cuts the text: it is an operator, no bracket
/// is open, and a space stands before and behind it.
pub open spec fn is_boundary(text: Seq<char>, i: int, depth: nat) -> bool {
    &&& depth == 0
    &&& is_operator(text[i])
    &&& 0 < i && text[i - 1] == ' '
    &&& i + 1 < text.len() && text[i + 1] == ' '
}

/// The walk over one more character, the one at `i`.
pub open spec fn step(scan: Scan, text: Seq<char>, i: int) -> Scan {
    let c = text[i];
    if scan.unmatched {
        scan
    } else if c == ')' {
        if scan.depth == 0 {
            Scan { unmatched: true, ..scan }
        } else if scan.depth > 1 {
            Scan { buffer: scan.buffer.push(c), depth: (scan.depth - 1) as nat, ..scan }
        } else {
            Scan { depth: (scan.depth - 1) as nat, ..scan }
        }
    } else if is_boundary(text, i, scan.depth) {
        Scan {
            pieces: scan.pieces.push(Piece { text: scan.buffer, bracketed: scan.bracketed }),
            operators: scan.operators.push(c),
            buffer: Seq::empty(),
            bracketed: false,
            ..scan
        }
    } else if c == '(' {
        if scan.depth > 0 {
            Scan { buffer: scan.buffer.push(c), depth: scan.depth + 1, bracketed: true, ..scan }
        } else {
            Scan { depth: scan.depth + 1, bracketed: true, ..scan }
        }
    } else {
        Scan { buffer: scan.buffer.push(c), ..scan }
    }
}

/// The walk over the first `n` characters of `text`.
pub open spec fn scan_to(text: Seq<char>, n: nat) -> Scan
    decreases n,
{
    if n == 0 {
        start()
    } else {
        step(scan_to(text, (n - 1) as nat), text, n - 1)
    }
}

/// What `text` is cut into. At the end of the text the operand that is
/// being read is closed, unless the walk ended at a `)`.
pub open spec fn cut_of(text: Seq<char>) -> Cut {
    let end = scan_to(text, text.len());
    if end.unmatched {
        Cut { pieces: end.pieces, operators: end.operators, unmatched: true }
    } else {
        Cut {
            pieces: end.pieces.push(Piece { text: end.buffer, bracketed: end.bracketed }),
            operators: end.operators,
            unmatched: false,
        }
    }
}

/// A character that the text does not hold is in none of its operands and
/// is none of its operators.
pub proof fn lemma_cut_without(text: Seq<char>, c: char)
    requires
        forall|i: int| 0 <= i < text.len() ==> text[i] != c,
    ensures
        forall|j: int| 0 <= j < cut_of(text).operators.len() ==> cut_of(text).operators[j] != c,
        forall|j: int, i: int|
            0 <= j < cut_of(text).pieces.len() && 0 <= i < cut_of(text).pieces[j].text.len()
                ==> (#[trigger] cut_of(text).pieces[j].text[i]) != c,
{
    lemma_scan_without(text, text.len(), c);
}

/// A character that the text does not hold is gathered at no point of the
/// walk.
proof fn lemma_scan_without(text: Seq<char>, n: nat, c: char)
    requires
        n <= text.len(),
        forall|i: int| 0 <= i < text.len() ==> text[i] != c,
    ensures
        forall|j: int|
            0 <= j < scan_to(text, n).operators.len() ==> scan_to(text, n).operators[j] != c,
        forall|j: int, i: int|
            0 <= j < scan_to(text, n).pieces.len() && 0 <= i < scan_to(text, n).pieces[j].text.len()
                ==> (#[trigger] scan_to(text, n).pieces[j].text[i]) != c,
        forall|i: int| 0 <= i < scan_to(text, n).buffer.len() ==> scan_to(text, n).buffer[i] != c,
    decreases n,
{
    if n > 0 {
        lemma_scan_without(text, (n - 1) as nat, c);
        let before = scan_to(text, (n - 1) as nat);
        let after = scan_to(text, n);
        assert(after == step(before, text, n - 1));
        assert(text[n - 1] != c);
        assert forall|j: int| 0 <= j < after.operators.len() implies after.operators[j] != c by {
            if j < before.operators.len() {
                assert(after.operators[j] == before.operators[j]);
            }
        }
        assert forall|j: int, i: int|
            0 <= j < after.pieces.len() && 0 <= i < after.pieces[j].text.len() implies (
        #[trigger] after.pieces[j].text[i]) != c by {
            if j < before.pieces.len() {
                assert(after.pieces[j] == before.pieces[j]);
                assert(before.pieces[j].text[i] != c);
            } else {
                assert(after.pieces[j].text == before.buffer);
                assert(before.buffer[i] != c);
            }
        }
        assert forall|i: int| 0 <= i < after.buffer.len() implies after.buffer[i] != c by {
            if i < before.buffer.len() {
                assert(after.buffer[i] == before.buffer[i]);
            }
        }
    }
}

/// One for an operand with a bracket, which the operand's text does not
/// hold.
pub open spec fn dropped(bracketed: bool) -> nat {
    if bracketed {
        1
    } else {
        0
    }
}

/// What holds at every point of a walk: each closed operand has its
/// operator, only operator characters are taken for operators, and no
/// operand is longer than what was walked, an operand with a bracket being
/// shorter.
pub proof fn lemma_scan(text: Seq<char>, n: nat)
    requires
        n <= text.len(),
    ensures
        ({
            let scan = scan_to(text, n);
            &&& scan.pieces.len() == scan.operators.len()
            &&& forall|j: int|
                0 <= j < scan.operators.len() ==> is_operator(#[trigger] scan.operators[j])
            &&& forall|j: int|
                0 <= j < scan.pieces.len() ==> (#[trigger] scan.pieces[j]).text.len() + dropped(
                    scan.pieces[j].bracketed,
                ) <= n
            &&& scan.buffer.len() + dropped(scan.bracketed) <= n
            &&& scan.depth <= n
            &&& scan.depth > 0 ==> scan.bracketed
        }),
    decreases n,
{
    if n > 0 {
        lemma_scan(text, (n - 1) as nat);
    }
}

/// After an unmatched `)` the walk stands still.
pub proof fn lemma_scan_halts(text: Seq<char>, m: nat, n: nat)
    requires
        m <= n,
        scan_to(text, m).unmatched,
    ensures
        scan_to(text, n) == scan_to(text, m),
    decreases n,
{
    if m < n {
        lemma_scan_halts(text, m, (n - 1) as nat);
    }
}

/// In what a text is cut into, an operator stands between every two
/// operands, only operator characters are operators, and an operand with a
/// bracket is shorter than the text.
pub proof fn lemma_cut(text: Seq<char>)
    ensures
        ({
            let cut = cut_of(text);
            &&& cut.unmatched ==> cut.pieces.len() == cut.operators.len()
            &&& !cut.unmatched ==> cut.pieces.len() == cut.operators.len() + 1
            &&& forall|j: int|
                0 <= j < cut.operators.len() ==> is_operator(#[trigger] cut.operators[j])
            &&& forall|j: int|
                0 <= j < cut.pieces.len() ==> (#[trigger] cut.pieces[j]).text.len() + dropped(
                    cut.pieces[j].bracketed,
                ) <= text.len()
        }),
{
    lemma_scan(text, text.len());
}

/// Whether `text` holds neither a bracket nor an operator between two
/// spaces: nothing that the scanner treats in a way of its own.
pub open spec fn is_plain(text: Seq<char>) -> bool {
    forall|i: int|
        0 <= i < text.len() ==> text[i] != '(' && text[i] != ')' && !is_boundary(text, i, 0)
}

/// The opening brackets less the closing ones among the first `n`
/// characters of `text`.
pub open spec fn excess(text: Seq<char>, n: nat) -> int
    decreases n,
{
    if n == 0 {
        0
    } else if text[n - 1] == '(' {
        excess(text, (n - 1) as nat) + 1
    } else if text[n - 1] == ')' {
        excess(text, (n - 1) as nat) - 1
    } else {
        excess(text, (n - 1) as nat)
    }
}

/// Whether every bracket of `text` has its partner: no `)` comes before its
/// `(`, and none is left open.
pub open spec fn is_balanced(text: Seq<char>) -> bool {
    &&& forall|n: nat| n <= text.len() ==> excess(text, n) >= 0
    &&& excess(text, text.len()) == 0
}

/// A walk that goes on from the end of another one: the operands and
/// operators of both, and the open operand of the second.
pub open spec fn joined(first: Scan, second: Scan) -> Scan {
    Scan {
        pieces: first.pieces + second.pieces,
        operators: first.operators + second.operators,
        buffer: second.buffer,
        bracketed: second.bracketed,
        depth: second.depth,
        unmatched: second.unmatched,
    }
}

/// A plain text is one operand.
pub proof fn lemma_cut_plain(text: Seq<char>)
    requires
        is_plain(text),
    ensures
        cut_of(text) == (Cut {
            pieces: seq![Piece { text, bracketed: false }],
            operators: Seq::empty(),
            unmatched: false,
        }),
{
    lemma_scan_plain(text, text.len());
    assert(text.subrange(0, text.len() as int) =~= text);
    assert(Seq::<Piece>::empty().push(Piece { text, bracketed: false }) =~= seq![
        Piece { text, bracketed: false },
    ]);
}

/// The walk over a plain text only gathers its characters.
proof fn lemma_scan_plain(text: Seq<char>, n: nat)
    requires
        is_plain(text),
        n <= text.len(),
    ensures
        scan_to(text, n) == (Scan { buffer: text.subrange(0, n as int), ..start() }),
    decreases n,
{
    if n > 0 {
        lemma_scan_plain(text, (n - 1) as nat);
        assert(text.subrange(0, n - 1).push(text[n - 1]) =~= text.subrange(0, n as int));
    } else {
        assert(text.subrange(0, 0) =~= Seq::<char>::empty());
    }
}

/// What stands between a pair of brackets is one operand, where the
/// brackets inside it are balanced.
pub proof fn lemma_cut_bracketed(inner: Seq<char>)
    requires
        is_balanced(inner),
    ensures
        cut_of(seq!['('] + inner + seq![')']) == (Cut {
            pieces: seq![Piece { text: inner, bracketed: true }],
            operators: Seq::empty(),
            unmatched: false,
        }),
{
    let text = seq!['('] + inner + seq![')'];
    lemma_scan_bracketed(inner, inner.len());
    assert(inner.subrange(0, inner.len() as int) =~= inner);
    let last = inner.len() as int + 1;
    assert(text[last] == ')');
    assert(scan_to(text, text.len()) == step(scan_to(text, last as nat), text, last));
    assert(Seq::<Piece>::empty().push(Piece { text: inner, bracketed: true }) =~= seq![
        Piece { text: inner, bracketed: true },
    ]);
}

/// The walk behind an opening bracket gathers what stands inside, and
/// counts the brackets that are open there.
proof fn lemma_scan_bracketed(inner: Seq<char>, n: nat)
    requires
        is_balanced(inner),
        n <= inner.len(),
    ensures
        scan_to(seq!['('] + inner + seq![')'], n + 1) == (Scan {
            buffer: inner.subrange(0, n as int),
            bracketed: true,
            depth: (1 + excess(inner, n)) as nat,
            ..start()
        }),
    decreases n,
{
    let text = seq!['('] + inner + seq![')'];
    if n > 0 {
        lemma_scan_bracketed(inner, (n - 1) as nat);
        assert(text[n as int] == inner[n - 1]);
        assert(excess(inner, (n - 1) as nat) >= 0);
        assert(excess(inner, n) >= 0);
        assert(inner.subrange(0, n - 1).push(inner[n - 1]) =~= inner.subrange(0, n as int));
        assert(scan_to(text, n + 1) == step(scan_to(text, n), text, n as int));
    } else {
        assert(text[0] == '(');
        assert(scan_to(text, 0) == start());
        assert(scan_to(text, 1) == step(scan_to(text, 0), text, 0));
        assert(inner.subrange(0, 0) =~= Seq::<char>::empty());
    }
}

/// The walk over the text before a character that no operator stands
/// before is the walk over that text alone.
proof fn lemma_scan_front(text: Seq<char>, end: int, n: nat)
    requires
        n <= end <= text.len(),
        0 < end ==> !is_operator(text[end - 1]),
    ensures
        scan_to(text.subrange(0, end), n) == scan_to(text, n),
    decreases n,
{
    if n > 0 {
        let front = text.subrange(0, end);
        lemma_scan_front(text, end, (n - 1) as nat);
        let i = n - 1;
        assert(front[i] == text[i]);
        if i + 1 < end {
            assert(front[i + 1] == text[i + 1]);
        }
        if i > 0 {
            assert(front[i - 1] == text[i - 1]);
        }
        assert forall|depth: nat| is_boundary(front, i, depth) == is_boundary(text, i, depth) by {}
    }
}

/// The walk behind an operator goes on as the walk over the rest alone.
proof fn lemma_scan_back(text: Seq<char>, at: int, n: nat)
    requires
        0 <= at < text.len(),
        is_boundary(text, at, scan_to(text, at as nat).depth),
        !scan_to(text, at as nat).unmatched,
        at + 1 + n <= text.len(),
    ensures
        scan_to(text, (at + 1 + n) as nat) == joined(
            scan_to(text, (at + 1) as nat),
            scan_to(text.subrange(at + 1, text.len() as int), n),
        ),
    decreases n,
{
    let back = text.subrange(at + 1, text.len() as int);
    let base = scan_to(text, (at + 1) as nat);
    assert(base == step(scan_to(text, at as nat), text, at));
    if n > 0 {
        lemma_scan_back(text, at, (n - 1) as nat);
        let i = n - 1;
        let before = scan_to(back, i as nat);
        assert(back[i] == text[at + 1 + i]);
        if i > 0 {
            assert(back[i - 1] == text[at + i]);
        }
        if i + 1 < back.len() {
            assert(back[i + 1] == text[at + 2 + i]);
        }
        assert forall|depth: nat|
            is_boundary(back, i, depth) == is_boundary(text, at + 1 + i, depth) by {}
        let after = step(before, back, i);
        assert(scan_to(text, (at + 1 + n) as nat) == step(
            joined(base, before),
            text,
            at + 1 + i,
        ));
        assert(joined(base, after).pieces =~= step(joined(base, before), text, at + 1 + i).pieces);
        assert(joined(base, after).operators =~= step(
            joined(base, before),
            text,
            at + 1 + i,
        ).operators);
    } else {
        assert(joined(base, start()).pieces =~= base.pieces);
        assert(joined(base, start()).operators =~= base.operators);
    }
}

/// An operator that cuts the text parts it in two: the text is cut into the
/// operands and operators of what stands before the operator, then the
/// operator, then those of what stands behind it.
pub proof fn lemma_cut_at_operator(text: Seq<char>, at: int)
    requires
        0 <= at < text.len(),
        is_boundary(text, at, scan_to(text, at as nat).depth),
        !scan_to(text, at as nat).unmatched,
    ensures
        ({
            let whole = cut_of(text);
            let front = cut_of(text.subrange(0, at));
            let back = cut_of(text.subrange(at + 1, text.len() as int));
            &&& !front.unmatched
            &&& whole.pieces == front.pieces + back.pieces
            &&& whole.operators == front.operators.push(text[at]) + back.operators
            &&& whole.unmatched == back.unmatched
        }),
{
    let front = text.subrange(0, at);
    let back = text.subrange(at + 1, text.len() as int);
    lemma_scan_front(text, at, at as nat);
    lemma_scan_back(text, at, back.len());
    let met = scan_to(text, at as nat);
    let base = scan_to(text, (at + 1) as nat);
    assert(base == step(met, text, at));
    let rest = scan_to(back, back.len());
    let piece = Piece { text: rest.buffer, bracketed: rest.bracketed };
    assert((base.pieces + rest.pieces).push(piece) =~= base.pieces + rest.pieces.push(piece));
    assert(cut_of(text).pieces =~= cut_of(front).pieces + cut_of(back).pieces);
    assert(cut_of(text).operators =~= cut_of(front).operators.push(text[at]) + cut_of(
        back,
    ).operators);
}

/// A row of operands with an operator between every two of them, written
/// out as one text.
pub open spec fn row(operands: Seq<Seq<char>>, operators: Seq<char>) -> Seq<char>
    decreases operators.len(),
{
    if operands.len() == 0 {
        Seq::empty()
    } else if operators.len() == 0 {
        operands[0]
    } else {
        operands[0] + seq![operators[0]] + row(operands.drop_first(), operators.drop_first())
    }
}

/// Whether the operands are plain texts and every operator stands between
/// two spaces, the last character of the operand before it and the first
/// one of the operand behind it.
pub open spec fn is_row(operands: Seq<Seq<char>>, operators: Seq<char>) -> bool {
    &&& operands.len() == operators.len() + 1
    &&& forall|j: int| 0 <= j < operators.len() ==> is_operator(#[trigger] operators[j])
    &&& forall|j: int| 0 <= j < operands.len() ==> is_plain(#[trigger] operands[j])
    &&& forall|j: int|
        0 <= j < operators.len() ==> (#[trigger] operands[j]).len() > 0 && operands[j].last()
            == ' '
    &&& forall|j: int|
        0 < j < operands.len() ==> (#[trigger] operands[j]).len() > 0 && operands[j][0] == ' '
}

/// Each text as the piece of an operand without brackets.
pub open spec fn plain_pieces(operands: Seq<Seq<char>>) -> Seq<Piece> {
    operands.map_values(|text: Seq<char>| Piece { text, bracketed: false })
}

/// A row is cut into its operands and its operators.
pub proof fn lemma_cut_of_row(operands: Seq<Seq<char>>, operators: Seq<char>)
    requires
        is_row(operands, operators),
    ensures
        cut_of(row(operands, operators)) == (Cut {
            pieces: plain_pieces(operands),
            operators,
            unmatched: false,
        }),
    decreases operators.len(),
{
    let text = row(operands, operators);
    if operators.len() == 0 {
        lemma_cut_plain(operands[0]);
        assert(plain_pieces(operands) =~= seq![Piece { text: operands[0], bracketed: false }]);
        assert(operators =~= Seq::<char>::empty());
    } else {
        let first = operands[0];
        let others = operands.drop_first();
        let signs = operators.drop_first();
        let rest = row(others, signs);
        let at = first.len() as int;
        assert(is_row(others, signs)) by {
            assert forall|j: int| 0 <= j < signs.len() implies is_operator(
                #[trigger] signs[j],
            ) by {
                assert(signs[j] == operators[j + 1]);
            }
            assert forall|j: int| 0 <= j < others.len() implies is_plain(#[trigger] others[j]) by {
                assert(others[j] == operands[j + 1]);
            }
            assert forall|j: int| 0 <= j < signs.len() implies (#[trigger] others[j]).len() > 0
                && others[j].last() == ' ' by {
                assert(others[j] == operands[j + 1]);
            }
            assert forall|j: int| 0 < j < others.len() implies (#[trigger] others[j]).len() > 0
                && others[j][0] == ' ' by {
                assert(others[j] == operands[j + 1]);
            }
        }
        lemma_cut_of_row(others, signs);
        assert(others[0] == operands[1]);
        assert(rest.len() > 0 && rest[0] == ' ') by {
            if signs.len() > 0 {
                assert(rest == others[0] + seq![signs[0]] + row(
                    others.drop_first(),
                    signs.drop_first(),
                ));
            }
        }
        assert(text.subrange(0, at) =~= first);
        assert(text.subrange(at + 1, text.len() as int) =~= rest);
        assert(text[at] == operators[0]);
        assert(text[at - 1] == first.last());
        assert(text[at + 1] == rest[0]);
        lemma_scan_front(text, at, at as nat);
        lemma_scan_plain(first, first.len());
        lemma_cut_plain(first);
        lemma_cut_at_operator(text, at);
        assert(plain_pieces(operands) =~= seq![Piece { text: first, bracketed: false }]
            + plain_pieces(others));
        assert(operators =~= Seq::<char>::empty().push(operators[0]) + signs);
    }
}

/// One operand as the scanner hands it on.
#[derive(Debug, PartialEq)]
pub struct Operand {
    /// The text of the operand; for one with a bracket, what stands inside
    /// the outermost brackets and around them.
    pub text: Vec<char>,
    /// Whether a bracket was opened in the operand.
    pub bracketed: bool,
}

impl View for Operand {
    type V = Piece;

    open spec fn view(&self) -> Piece {
        Piece { text: self.text@, bracketed: self.bracketed }
    }
}

/// What the scanner hands on.
#[derive(Debug, PartialEq)]
pub struct Tokens {
    pub operands: Vec<Operand>,
    pub operators: Vec<char>,
    /// Whether a `)` was met where no bracket was open.
    pub unmatched: bool,
}

/// The operands, each as a piece.
pub open spec fn pieces_of(operands: Seq<Operand>) -> Seq<Piece> {
    operands.map_values(|operand: Operand| operand@)
}

impl View for Tokens {
    type V = Cut;

    open spec fn view(&self) -> Cut {
        Cut {
            pieces: pieces_of(self.operands@),
            operators: self.operators@,
            unmatched: self.unmatched,
        }
    }
}

/// Tells whether `c` is one of the five operators.
pub fn operator(c: char) -> (is: bool)
    ensures
        is == is_operator(c),
{
    c == '*' || c == '+' || c == '-' || c == '/' || c == '^'
}

/// Cuts `text` into operands and operators.
pub fn scan(text: &Vec<char>) -> (tokens: Tokens)
    ensures
        tokens@ == cut_of(text@),
{
    let mut operands: Vec<Operand> = Vec::new();
    let mut operators: Vec<char> = Vec::new();
    let mut buffer: Vec<char> = Vec::new();
    let mut bracketed = false;
    let mut depth: usize = 0;
    let mut i: usize = 0;
    assert(pieces_of(operands@) =~= Seq::<Piece>::empty());
    while i < text.len()
        invariant
            i <= text.len(),
            depth <= i,
            scan_to(text@, i as nat) == (Scan {
                pieces: pieces_of(operands@),
                operators: operators@,
                buffer: buffer@,
                bracketed,
                depth: depth as nat,
                unmatched: false,
            }),
        decreases text.len() - i,
    {
        let c = text[i];
        let ghost before = scan_to(text@, i as nat);
        assert(scan_to(text@, (i + 1) as nat) == step(before, text@, i as int));
        if c == ')' {
            if depth == 0 {
                proof {
                    lemma_scan_halts(text@, (i + 1) as nat, text@.len());
                }
                return Tokens { operands, operators, unmatched: true };
            }
            if depth > 1 {
                buffer.push(c);
            }
            depth -= 1;
        } else if depth == 0 && operator(c) && i > 0 && text[i - 1] == ' ' && i + 1 < text.len()
            && text[i + 1] == ' ' {
            let ghost pieces = pieces_of(operands@);
            let operand = Operand { text: buffer, bracketed };
            operands.push(operand);
            operators.push(c);
            buffer = Vec::new();
            bracketed = false;
            assert(pieces_of(operands@) =~= pieces.push(operand@));
        } else if c == '(' {
            if depth > 0 {
                buffer.push(c);
            }
            depth += 1;
            bracketed = true;
        } else {
            buffer.push(c);
        }
        i += 1;
    }
    let ghost pieces = pieces_of(operands@);
    let operand = Operand { text: buffer, bracketed };
    operands.push(operand);
    assert(pieces_of(operands@) =~= pieces.push(operand@));
    Tokens { operands, operators, unmatched: false }
}

} // verus!
