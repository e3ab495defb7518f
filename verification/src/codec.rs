//! The text forms of a board: the lossy display rendering, the lossless
//! state serialization, and the parser that rebuilds a board from exported
//! state.

use crate::board::{
    adjacent_mines, lemma_mutation_keeps_wf, valid_config, Board, BoardError,
};
use crate::cell::Cell;
use crate::counting::{lemma_count_le, lemma_count_split};
use crate::grid::{is_adjacent, lemma_neighbor_total};
use crate::text::{
    all_digits, dec_rep, dec_val, digit_char, digit_str, is_space, lemma_dec_rep_val,
    parse_decimal, push_decimal,
};
use vstd::prelude::*;
use vstd::string::StringExecFns;
use vstd::string::StrSliceExecFns;

verus! {

/// The display symbol of one cell: a flag, an unrevealed cover, a revealed
/// mine, or the digit of its neighbor-mine count.
pub open spec fn cell_symbol(c: Cell) -> char {
    if c.flag {
        'F'
    } else if !c.revealed {
        '.'
    } else if c.mine {
        'M'
    } else {
        digit_char(c.neighbors as nat)
    }
}

/// The display rendering from cell `from` on: one symbol per cell, a
/// newline after each full row.
pub open spec fn board_render(cells: Seq<Cell>, w: int, from: int) -> Seq<char>
    decreases cells.len() - from,
{
    if from < 0 || from >= cells.len() {
        Seq::empty()
    } else {
        seq![cell_symbol(cells[from])] + (if (from + 1) % w == 0 {
            seq!['\n']
        } else {
            Seq::<char>::empty()
        }) + board_render(cells, w, from + 1)
    }
}

/// The two-character state token of one cell: revealed bit, then flag bit.
pub open spec fn cell_token(c: Cell) -> Seq<char> {
    seq![
        if c.revealed {
            '1'
        } else {
            '0'
        },
        if c.flag {
            '1'
        } else {
            '0'
        },
    ]
}

/// The state tokens from cell `from` on: a single space separates tokens
/// within a row, and a newline terminates each row of `w` tokens.
pub open spec fn cells_render(cells: Seq<Cell>, w: int, from: int) -> Seq<char>
    decreases cells.len() - from,
{
    if from < 0 || from >= cells.len() {
        Seq::empty()
    } else {
        cell_token(cells[from]) + seq![
            if (from + 1) % w == 0 {
                '\n'
            } else {
                ' '
            },
        ] + cells_render(cells, w, from + 1)
    }
}

/// The full state serialization: dimensions and mine budget, the seed line,
/// then one token per cell.
pub open spec fn state_render(b: Board) -> Seq<char> {
    dec_rep(b.width as nat) + seq![' '] + dec_rep(b.height as nat) + seq![' '] + dec_rep(
        b.mine_count as nat,
    ) + seq!['\n'] + b.seed@ + seq!['\n'] + cells_render(b.cells@, b.width as int, 0)
}

/// Length of the leading run of non-whitespace characters.
pub open spec fn token_len(s: Seq<char>) -> nat
    decreases s.len(),
{
    if s.len() == 0 || is_space(s[0]) {
        0
    } else {
        1 + token_len(s.drop_first())
    }
}

pub proof fn lemma_token_len_le(s: Seq<char>)
    ensures
        token_len(s) <= s.len(),
    decreases s.len(),
{
    if s.len() > 0 && !is_space(s[0]) {
        lemma_token_len_le(s.drop_first());
    }
}

/// The whitespace-separated tokens of a character sequence.
pub open spec fn tokenize(s: Seq<char>) -> Seq<Seq<char>>
    decreases s.len(),
    via tokenize_decreases
{
    if s.len() == 0 {
        Seq::empty()
    } else if is_space(s[0]) {
        tokenize(s.drop_first())
    } else {
        seq![s.take(token_len(s) as int)] + tokenize(s.skip(token_len(s) as int))
    }
}

#[via_fn]
proof fn tokenize_decreases(s: Seq<char>) {
    lemma_token_len_le(s);
}

/// Every token is nonempty and free of whitespace.
pub proof fn lemma_tokens_wellformed(s: Seq<char>)
    ensures
        forall|k: int| 0 <= k < tokenize(s).len() ==> (#[trigger] tokenize(s)[k]).len() >= 1,
        forall|k: int, t: int|
            0 <= k < tokenize(s).len() && 0 <= t < tokenize(s)[k].len() ==> !is_space(
                #[trigger] tokenize(s)[k][t],
            ),
    decreases s.len(),
{
    if s.len() == 0 {
        assert(tokenize(s) =~= Seq::<Seq<char>>::empty());
    } else if is_space(s[0]) {
        lemma_tokens_wellformed(s.drop_first());
        assert(tokenize(s) == tokenize(s.drop_first()));
    } else {
        lemma_token_len_le(s);
        lemma_tokens_wellformed(s.skip(token_len(s) as int));
        let tok = s.take(token_len(s) as int);
        let rest = tokenize(s.skip(token_len(s) as int));
        let toks = tokenize(s);
        assert(toks == seq![tok] + rest);
        assert(token_len(s) >= 1);
        assert forall|k: int| 0 <= k < toks.len() implies (#[trigger] toks[k]).len() >= 1 by {
            if k == 0 {
                assert(toks[0] == tok);
            } else {
                assert(toks[k] == rest[k - 1]);
            }
        }
        assert forall|k: int, t: int|
            0 <= k < toks.len() && 0 <= t < toks[k].len() implies !is_space(
            #[trigger] toks[k][t],
        ) by {
            if k == 0 {
                assert(toks[0] == tok);
                lemma_token_prefix_not_space(s, t);
                assert(tok[t] == s[t]);
            } else {
                assert(toks[k] == rest[k - 1]);
            }
        }
    }
}

/// Characters inside the leading token are not whitespace.
proof fn lemma_token_prefix_not_space(s: Seq<char>, t: int)
    requires
        0 <= t < token_len(s),
    ensures
        !is_space(s[t]),
    decreases t,
{
    lemma_token_len_le(s);
    if t > 0 {
        lemma_token_prefix_not_space(s.drop_first(), t - 1);
        assert(s.drop_first()[t - 1] == s[t]);
    }
}

/// The leading token is exactly the run up to the first whitespace.
proof fn lemma_token_len_exact(u: Seq<char>, j: int)
    requires
        0 <= j <= u.len(),
        forall|t: int| 0 <= t < j ==> !is_space(#[trigger] u[t]),
        j == u.len() || is_space(u[j]),
    ensures
        token_len(u) == j,
    decreases j,
{
    if j > 0 {
        assert(!is_space(u[0]));
        assert forall|t: int| 0 <= t < j - 1 implies !is_space(#[trigger] u.drop_first()[t]) by {
            assert(u.drop_first()[t] == u[t + 1]);
        }
        if j < u.len() {
            assert(u.drop_first()[j - 1] == u[j]);
        }
        lemma_token_len_exact(u.drop_first(), j - 1);
    }
}

/// Dropping a leading whitespace character does not change the tokens.
pub proof fn lemma_tokenize_skip_space(c: char, r: Seq<char>)
    requires
        is_space(c),
    ensures
        tokenize(seq![c] + r) == tokenize(r),
{
    let s = seq![c] + r;
    assert(s.len() >= 1 && s[0] == c);
    assert(s.drop_first() =~= r);
}

/// A nonempty whitespace-free chunk followed by text that starts with
/// whitespace (or nothing) contributes exactly one token.
pub proof fn lemma_tokenize_emit(t: Seq<char>, r: Seq<char>)
    requires
        t.len() >= 1,
        forall|k: int| 0 <= k < t.len() ==> !is_space(#[trigger] t[k]),
        r.len() == 0 || is_space(r[0]),
    ensures
        tokenize(t + r) == seq![t] + tokenize(r),
{
    let s = t + r;
    assert forall|k: int| 0 <= k < t.len() implies !is_space(#[trigger] s[k]) by {
        assert(s[k] == t[k]);
    }
    if t.len() < s.len() {
        assert(s[t.len() as int] == r[0]);
    }
    lemma_token_len_exact(s, t.len() as int);
    assert(!is_space(s[0]));
    assert(s.take(t.len() as int) =~= t);
    assert(s.skip(t.len() as int) =~= r);
}

/// Splits the text into its whitespace-separated tokens.
fn tokenize_exec(s: &str) -> (toks: Vec<String>)
    ensures
        toks.deep_view() == tokenize(s@),
{
    let len = s.unicode_len();
    let mut toks: Vec<String> = Vec::new();
    let mut k: usize = 0;
    proof {
        assert(s@.skip(0) =~= s@);
    }
    while k < len
        invariant
            k <= len,
            len == s@.len(),
            toks.deep_view() + tokenize(s@.skip(k as int)) == tokenize(s@),
        decreases len - k,
    {
        let c = s.get_char(k);
        if c == ' ' || c == '\n' || c == '\t' || c == '\r' {
            proof {
                let rest = s@.skip(k as int);
                assert(rest.len() > 0 && rest[0] == s@[k as int]);
                assert(rest.drop_first() =~= s@.skip(k as int + 1));
            }
            k += 1;
        } else {
            let start = k;
            let mut m = k;
            while m < len
                invariant_except_break
                    start <= m <= len,
                    len == s@.len(),
                    forall|t: int| start <= t < m ==> !is_space(#[trigger] s@[t]),
                ensures
                    start <= m <= len,
                    len == s@.len(),
                    forall|t: int| start <= t < m ==> !is_space(#[trigger] s@[t]),
                    m == len || is_space(s@[m as int]),
                decreases len - m,
            {
                let c2 = s.get_char(m);
                if c2 == ' ' || c2 == '\n' || c2 == '\t' || c2 == '\r' {
                    break;
                }
                m += 1;
            }
            proof {
                assert(!is_space(s@[start as int]));
            }
            let piece = s.substring_char(start, m);
            let tok = piece.to_owned();
            let ghost pre = toks.deep_view();
            toks.push(tok);
            proof {
                let rest = s@.skip(start as int);
                let tokv = s@.subrange(start as int, m as int);
                assert forall|t: int| start <= t < m implies !is_space(#[trigger] s@[t]) by {}
                assert forall|t: int| 0 <= t < tokv.len() implies !is_space(#[trigger] tokv[t]) by {
                    assert(tokv[t] == s@[t + start]);
                }
                assert(rest.len() > 0 && !is_space(rest[0]));
                assert forall|t: int| 0 <= t < m - start implies !is_space(
                    #[trigger] rest[t],
                ) by {
                    assert(rest[t] == s@[t + start]);
                }
                if m < len {
                    assert(rest[m - start] == s@[m as int]);
                    assert(is_space(rest[m - start]));
                }
                lemma_token_len_exact(rest, m - start);
                assert(rest.take(m - start) =~= tokv);
                assert(rest.skip(m - start) =~= s@.skip(m as int));
                assert(tokenize(rest) == seq![tokv] + tokenize(s@.skip(m as int)));
                assert(tok@ == tokv);
                assert(toks.deep_view() =~= pre + seq![tokv]);
                assert(toks.deep_view() + tokenize(s@.skip(m as int)) =~= tokenize(s@));
            }
            k = m;
        }
    }
    proof {
        assert(s@.skip(len as int) =~= Seq::<char>::empty());
        assert(tokenize(s@.skip(len as int)) =~= Seq::<Seq<char>>::empty());
        assert(toks.deep_view() =~= tokenize(s@));
    }
    toks
}

/// A token of digits whose value fits the machine word.
pub open spec fn number_token(t: Seq<char>) -> bool {
    t.len() >= 1 && all_digits(t) && dec_val(t) <= usize::MAX
}

/// The first three tokens are numbers and a seed token follows.
pub open spec fn header_valid(toks: Seq<Seq<char>>) -> bool {
    toks.len() >= 4 && number_token(toks[0]) && number_token(toks[1]) && number_token(toks[2])
}

/// Exactly one two-character token per cell.
pub open spec fn body_valid(toks: Seq<Seq<char>>, area: int) -> bool {
    &&& toks.len() - 4 == area
    &&& forall|k: int| 4 <= k < toks.len() ==> (#[trigger] toks[k]).len() == 2
}

/// Whether a cell token sets the revealed bit. Any token other than the
/// four recognized ones leaves both bits clear.
pub open spec fn token_reveal_bit(t: Seq<char>) -> bool {
    t == seq!['1', '0'] || t == seq!['1', '1']
}

/// Whether a cell token sets the flag bit.
pub open spec fn token_flag_bit(t: Seq<char>) -> bool {
    t == seq!['0', '1'] || t == seq!['1', '1']
}

/// The serialized cell section tokenizes into exactly one two-character
/// token per cell, in order.
proof fn lemma_tokenize_cells(cells: Seq<Cell>, w: int, from: int)
    requires
        w >= 1,
        0 <= from <= cells.len(),
    ensures
        tokenize(cells_render(cells, w, from)) == Seq::new(
            (cells.len() - from) as nat,
            |k: int| cell_token(cells[from + k]),
        ),
    decreases cells.len() - from,
{
    if from == cells.len() {
        assert(cells_render(cells, w, from) =~= Seq::<char>::empty());
        assert(tokenize(cells_render(cells, w, from)) =~= Seq::new(
            0,
            |k: int| cell_token(cells[from + k]),
        ));
    } else {
        lemma_tokenize_cells(cells, w, from + 1);
        let tok = cell_token(cells[from]);
        let sep = if (from + 1) % w == 0 {
            '\n'
        } else {
            ' '
        };
        let rest = cells_render(cells, w, from + 1);
        let after_tok = seq![sep] + rest;
        assert(cells_render(cells, w, from) =~= tok + after_tok);
        assert(after_tok[0] == sep);
        assert(tok[0] == '1' || tok[0] == '0');
        assert(tok[1] == '1' || tok[1] == '0');
        assert forall|k: int| 0 <= k < tok.len() implies !is_space(#[trigger] tok[k]) by {}
        lemma_tokenize_emit(tok, after_tok);
        lemma_tokenize_skip_space(sep, rest);
        assert(tokenize(cells_render(cells, w, from)) =~= Seq::new(
            (cells.len() - from) as nat,
            |k: int| cell_token(cells[from + k]),
        ));
    }
}

/// A cell's token encodes exactly its revealed and flag bits.
proof fn lemma_cell_token_bits(c: Cell)
    ensures
        token_reveal_bit(cell_token(c)) == c.revealed,
        token_flag_bit(cell_token(c)) == c.flag,
{
    let t = cell_token(c);
    if c.revealed {
        if c.flag {
            assert(t =~= seq!['1', '1']);
        } else {
            assert(t =~= seq!['1', '0']);
        }
    } else {
        if c.flag {
            assert(t =~= seq!['0', '1']);
            assert(t != seq!['1', '0'] && t != seq!['1', '1']) by {
                assert(t[0] == '0');
            }
        } else {
            assert(t =~= seq!['0', '0']);
            assert(t != seq!['1', '0'] && t != seq!['1', '1']) by {
                assert(t[0] == '0');
            }
            assert(t != seq!['0', '1']) by {
                assert(t[1] == '0');
            }
        }
    }
    if !c.flag {
        assert(t[1] == '0');
        assert(t != seq!['0', '1'] && t != seq!['1', '1']) by {
            assert(t[1] == '0');
        }
    }
}

/// Exported state parses back to exactly the board it came from: the same
/// dimensions, mine budget and seed, and the same revealed/flag bit for
/// every cell. The seed must be free of whitespace, as every seed the
/// library generates is.
pub proof fn lemma_state_round_trip(b: Board)
    requires
        b.wf(),
        forall|k: int| 0 <= k < b.seed@.len() ==> !is_space(#[trigger] b.seed@[k]),
    ensures
        ({
            let toks = tokenize(state_render(b));
            &&& header_valid(toks)
            &&& dec_val(toks[0]) == b.width
            &&& dec_val(toks[1]) == b.height
            &&& dec_val(toks[2]) == b.mine_count
            &&& toks[3] == b.seed@
            &&& valid_config(
                dec_val(toks[0]) as int,
                dec_val(toks[1]) as int,
                dec_val(toks[2]) as int,
            )
            &&& body_valid(toks, dec_val(toks[0]) as int * dec_val(toks[1]) as int)
            &&& forall|j: int|
                0 <= j < b.cells@.len() ==> token_reveal_bit(#[trigger] toks[4 + j])
                    == b.cells@[j].revealed && token_flag_bit(toks[4 + j]) == b.cells@[j].flag
        }),
{
    let aw = dec_rep(b.width as nat);
    let ah = dec_rep(b.height as nat);
    let ac = dec_rep(b.mine_count as nat);
    let seed = b.seed@;
    let cellsr = cells_render(b.cells@, b.width as int, 0);
    lemma_dec_rep_val(b.width as nat);
    lemma_dec_rep_val(b.height as nat);
    lemma_dec_rep_val(b.mine_count as nat);
    let r1 = seq![' '] + (ah + (seq![' '] + (ac + (seq!['\n'] + (seed + (seq!['\n']
        + cellsr))))));
    assert(state_render(b) =~= aw + r1);
    assert(r1[0] == ' ');
    lemma_tokenize_emit(aw, r1);
    let r2 = ah + (seq![' '] + (ac + (seq!['\n'] + (seed + (seq!['\n'] + cellsr)))));
    assert(r1 =~= seq![' '] + r2);
    lemma_tokenize_skip_space(' ', r2);
    let r3 = seq![' '] + (ac + (seq!['\n'] + (seed + (seq!['\n'] + cellsr))));
    assert(r2 =~= ah + r3);
    assert(r3[0] == ' ');
    lemma_tokenize_emit(ah, r3);
    let r4 = ac + (seq!['\n'] + (seed + (seq!['\n'] + cellsr)));
    assert(r3 =~= seq![' '] + r4);
    lemma_tokenize_skip_space(' ', r4);
    let r5 = seq!['\n'] + (seed + (seq!['\n'] + cellsr));
    assert(r4 =~= ac + r5);
    assert(r5[0] == '\n');
    lemma_tokenize_emit(ac, r5);
    let r6 = seed + (seq!['\n'] + cellsr);
    assert(r5 =~= seq!['\n'] + r6);
    lemma_tokenize_skip_space('\n', r6);
    let r7 = seq!['\n'] + cellsr;
    assert(r7[0] == '\n');
    lemma_tokenize_emit(seed, r7);
    lemma_tokenize_skip_space('\n', cellsr);
    lemma_tokenize_cells(b.cells@, b.width as int, 0);
    let celltoks = Seq::new(b.cells@.len(), |k: int| cell_token(b.cells@[0 + k]));
    let toks = tokenize(state_render(b));
    assert(toks =~= seq![aw, ah, ac, seed] + celltoks);
    assert(toks[0] == aw && toks[1] == ah && toks[2] == ac && toks[3] == seed);
    assert(toks.len() == 4 + b.cells@.len());
    assert(b.area() == b.cells@.len());
    assert(dec_val(toks[0]) as int * dec_val(toks[1]) as int == b.area());
    assert forall|j: int| 0 <= j < b.cells@.len() implies token_reveal_bit(
        #[trigger] toks[4 + j],
    ) == b.cells@[j].revealed && token_flag_bit(toks[4 + j]) == b.cells@[j].flag by {
        assert(toks[4 + j] == celltoks[j]);
        assert(celltoks[j] == cell_token(b.cells@[j]));
        lemma_cell_token_bits(b.cells@[j]);
    }
    assert forall|k: int| 4 <= k < toks.len() implies (#[trigger] toks[k]).len() == 2 by {
        assert(toks[k] == celltoks[k - 4]);
        assert(celltoks[k - 4] == cell_token(b.cells@[k - 4]));
    }
}

/// Parsing the export of a well-formed board yields that very board: a
/// parse result that satisfies the importer's contract on
/// `state_render(b)` agrees with `b` on every field and every cell.
pub proof fn lemma_import_reproduces(b: Board, b2: Board)
    requires
        b.wf(),
        forall|k: int| 0 <= k < b.seed@.len() ==> !is_space(#[trigger] b.seed@[k]),
        b2.wf(),
        ({
            let toks = tokenize(state_render(b));
            &&& b2.width as int == dec_val(toks[0]) as int
            &&& b2.height as int == dec_val(toks[1]) as int
            &&& b2.mine_count as int == dec_val(toks[2]) as int
            &&& b2.seed@ == toks[3]
            &&& forall|j: int|
                0 <= j < b2.cells@.len() ==> (#[trigger] b2.cells@[j]).revealed
                    == token_reveal_bit(toks[4 + j]) && b2.cells@[j].flag == token_flag_bit(
                    toks[4 + j],
                )
        }),
    ensures
        b2.width == b.width,
        b2.height == b.height,
        b2.mine_count == b.mine_count,
        b2.seed@ == b.seed@,
        b2.cells@ == b.cells@,
{
    lemma_state_round_trip(b);
    assert(b2.cells@.len() == b.cells@.len());
    assert forall|j: int| 0 <= j < b.cells@.len() implies #[trigger] b2.cells@[j]
        == b.cells@[j] by {
        assert(b2.cells@[j].mine == b.cells@[j].mine);
        assert(b2.cells@[j].revealed == b.cells@[j].revealed && b2.cells@[j].flag
            == b.cells@[j].flag);
        assert(b2.cells@[j].neighbors as nat == adjacent_mines(
            b2.cells@,
            j,
            b2.width as int,
            b2.height as int,
        ));
        crate::counting::lemma_count_ext(
            |t: int| is_adjacent(j, t, b2.width as int, b2.height as int) && b2.cells@[t].mine,
            |t: int| is_adjacent(j, t, b.width as int, b.height as int) && b.cells@[t].mine,
            0,
            b.width as int * b.height as int,
        );
    }
    assert(b2.cells@ =~= b.cells@);
}

impl Board {
    /// Rebuilds a board from exported state text: the dimensions, mine
    /// budget and seed are parsed and the layout re-derived from the seed,
    /// then the persisted per-cell revealed/flag bits are overlaid in
    /// row-major order.
    pub fn from(state: String) -> (r: Result<Board, BoardError>)
        ensures
            ({
                let toks = tokenize(state@);
                let w = dec_val(toks[0]) as int;
                let h = dec_val(toks[1]) as int;
                let c = dec_val(toks[2]) as int;
                match r {
                    Ok(b) => {
                        &&& header_valid(toks)
                        &&& valid_config(w, h, c)
                        &&& body_valid(toks, w * h)
                        &&& b.wf()
                        &&& b.width as int == w
                        &&& b.height as int == h
                        &&& b.mine_count as int == c
                        &&& b.seed@ == toks[3]
                        &&& forall|j: int|
                            0 <= j < b.cells@.len() ==> (#[trigger] b.cells@[j]).revealed
                                == token_reveal_bit(toks[4 + j]) && b.cells@[j].flag
                                == token_flag_bit(toks[4 + j])
                    },
                    Err(e) => {
                        &&& (!header_valid(toks) || !valid_config(w, h, c) || !body_valid(
                            toks,
                            w * h,
                        ))
                        &&& (e == BoardError::MalformedState <==> (!header_valid(toks) || (
                        valid_config(w, h, c) && !body_valid(toks, w * h))))
                        &&& (e == BoardError::BadDimensions <==> (header_valid(toks) && !(1 <= w
                            && 1 <= h && w * h <= u32::MAX as int)))
                        &&& (e == BoardError::TooManyMines <==> (header_valid(toks) && 1 <= w && 1
                            <= h && w * h <= u32::MAX as int && c > w * h))
                    },
                }
            }),
    {
        let toks = tokenize_exec(state.as_str());
        let ghost tokens = tokenize(state@);
        proof {
            assert(toks@.len() == tokens.len());
            assert forall|k: int| 0 <= k < toks@.len() implies (#[trigger] toks@[k])@
                == tokens[k] by {
                assert(toks.deep_view()[k] == toks@[k].deep_view());
            }
        }
        if toks.len() < 4 {
            return Err(BoardError::MalformedState);
        }
        let width = match parse_decimal(toks[0].as_str()) {
            Some(v) => v,
            None => {
                return Err(BoardError::MalformedState);
            },
        };
        let height = match parse_decimal(toks[1].as_str()) {
            Some(v) => v,
            None => {
                return Err(BoardError::MalformedState);
            },
        };
        let count = match parse_decimal(toks[2].as_str()) {
            Some(v) => v,
            None => {
                return Err(BoardError::MalformedState);
            },
        };
        assert(header_valid(tokens));
        if width == 0 || height == 0 {
            return Err(BoardError::BadDimensions);
        }
        let n = match width.checked_mul(height) {
            Some(n) => n,
            None => {
                assert(width as int * height as int > u32::MAX as int) by (nonlinear_arith)
                    requires
                        width as int * height as int > usize::MAX as int,
                        usize::MAX as int >= u32::MAX as int,
                ;
                return Err(BoardError::BadDimensions);
            },
        };
        if n > u32::MAX as usize {
            return Err(BoardError::BadDimensions);
        }
        if count > n {
            return Err(BoardError::TooManyMines);
        }
        if toks.len() - 4 != n {
            assert(tokens.len() != n + 4);
            return Err(BoardError::MalformedState);
        }
        assert(n + 4 <= usize::MAX && tokens.len() == n + 4);
        // Each cell token must be exactly two characters.
        let mut j: usize = 0;
        while j < n
            invariant
                j <= n,
                n + 4 == toks@.len(),
                toks.deep_view() == tokens,
                tokens == tokenize(state@),
                tokens.len() == n + 4,
                n + 4 <= usize::MAX,
                forall|k: int| 0 <= k < toks@.len() ==> (#[trigger] toks@[k])@ == tokens[k],
                header_valid(tokens),
                width as nat == dec_val(tokens[0]),
                height as nat == dec_val(tokens[1]),
                count as nat == dec_val(tokens[2]),
                1 <= width,
                1 <= height,
                n == width * height,
                n <= u32::MAX,
                count <= n,
                forall|k: int| 0 <= k < j ==> (#[trigger] tokens[4 + k]).len() == 2,
            decreases n - j,
        {
            if toks[4 + j].as_str().unicode_len() != 2 {
                assert(tokens[4 + j as int].len() != 2);
                assert(!body_valid(tokens, width as int * height as int));
                return Err(BoardError::MalformedState);
            }
            j += 1;
        }
        assert forall|k: int| 4 <= k < tokens.len() implies (#[trigger] tokens[k]).len()
            == 2 by {
            assert(tokens[4 + (k - 4)].len() == 2);
        }
        assert(body_valid(tokens, width as int * height as int));
        proof {
            lemma_tokens_wellformed(state@);
        }
        let seed = toks[3].clone();
        let mut builder = Board::new().with_width(width).with_height(height).with_difficulty(
            count,
        ).with_seed(seed);
        let mut b = match builder.build() {
            Ok(b) => b,
            Err(_) => {
                proof {
                    assert(false);
                }
                return Err(BoardError::MalformedState);
            },
        };
        // Overlay the persisted revealed/flag bits.
        let mut i: usize = 0;
        while i < n
            invariant
                i <= n,
                n + 4 == toks@.len(),
                n + 4 <= usize::MAX,
                toks.deep_view() == tokens,
                tokens == tokenize(state@),
                forall|k: int| 0 <= k < toks@.len() ==> (#[trigger] toks@[k])@ == tokens[k],
                forall|k: int| 0 <= k < n ==> (#[trigger] tokens[4 + k]).len() == 2,
                b.wf(),
                b.cells@.len() == n,
                b.width == width,
                b.height == height,
                b.mine_count == count,
                b.seed@ == tokens[3],
                forall|k: int|
                    0 <= k < i ==> (#[trigger] b.cells@[k]).revealed == token_reveal_bit(
                        tokens[4 + k],
                    ) && b.cells@[k].flag == token_flag_bit(tokens[4 + k]),
                forall|k: int|
                    i <= k < n ==> !(#[trigger] b.cells@[k]).revealed && !b.cells@[k].flag,
            decreases n - i,
        {
            let ghost pre = b;
            let t = &toks[4 + i];
            let c0 = t.as_str().get_char(0);
            let c1 = t.as_str().get_char(1);
            let revealed = c0 == '1' && (c1 == '0' || c1 == '1');
            let flag = (c0 == '0' || c0 == '1') && c1 == '1';
            proof {
                let tv = tokens[4 + i as int];
                assert(tv.len() == 2 && tv[0] == c0 && tv[1] == c1);
                if revealed {
                    assert(tv =~= (if flag {
                        seq!['1', '1']
                    } else {
                        seq!['1', '0']
                    }));
                }
                if flag {
                    assert(tv =~= (if revealed {
                        seq!['1', '1']
                    } else {
                        seq!['0', '1']
                    }));
                }
                if !revealed && !flag {
                    assert(tv != seq!['1', '0'] && tv != seq!['1', '1'] && tv != seq!['0', '1'])
                        by {
                        if tv == seq!['1', '0'] {
                            assert(tv[0] == '1' && tv[1] == '0');
                        }
                        if tv == seq!['1', '1'] {
                            assert(tv[0] == '1' && tv[1] == '1');
                        }
                        if tv == seq!['0', '1'] {
                            assert(tv[0] == '0' && tv[1] == '1');
                        }
                    }
                }
            }
            let mut cell = b.cells[i];
            cell.revealed = revealed;
            cell.flag = flag;
            b.cells.set(i, cell);
            proof {
                lemma_mutation_keeps_wf(pre, b);
            }
            i += 1;
        }
        Ok(b)
    }

    /// The display-facing rendering of the board: `F` for a flag, `.` for a
    /// covered cell, `M` for a revealed mine, and the neighbor-mine digit
    /// for any other revealed cell; a newline ends each row.
    pub fn export_board(&self) -> (s: String)
        requires
            self.wf(),
        ensures
            s@ == board_render(self.cells@, self.width as int, 0),
    {
        let mut s = String::new();
        proof {
            assert(s@ + board_render(self.cells@, self.width as int, 0) =~= board_render(
                self.cells@,
                self.width as int,
                0,
            ));
        }
        let n = self.cells.len();
        let mut i: usize = 0;
        while i < n
            invariant
                i <= n,
                n == self.cells@.len(),
                self.wf(),
                s@ + board_render(self.cells@, self.width as int, i as int) == board_render(
                    self.cells@,
                    self.width as int,
                    0,
                ),
            decreases n - i,
        {
            let ghost pre = s@;
            let c = self.cells[i];
            proof {
                reveal_strlit("F");
                reveal_strlit(".");
                reveal_strlit("M");
                reveal_strlit("\n");
                crate::board::lemma_wf_neighbors_bound(*self, i as int);
            }
            let piece: &str = if c.flag {
                "F"
            } else if !c.revealed {
                "."
            } else if c.mine {
                "M"
            } else {
                digit_str(c.neighbors)
            };
            assert(piece@ =~= seq![cell_symbol(c)]);
            s.append(piece);
            if (i + 1) % self.width == 0 {
                s.append("\n");
                assert(s@ =~= pre + (seq![cell_symbol(c)] + seq!['\n']));
            }
            proof {
                let w = self.width as int;
                let cs = self.cells@;
                let tail = if (i as int + 1) % w == 0 {
                    seq!['\n']
                } else {
                    Seq::<char>::empty()
                };
                assert(s@ =~= pre + (seq![cell_symbol(c)] + tail));
                assert(board_render(cs, w, i as int) == seq![cell_symbol(cs[i as int])] + tail
                    + board_render(cs, w, i as int + 1));
                assert(s@ + board_render(cs, w, i as int + 1) =~= pre + board_render(
                    cs,
                    w,
                    i as int,
                ));
            }
            i += 1;
        }
        s
    }

    /// The lossless state serialization of the board, sufficient to rebuild
    /// it exactly.
    pub fn export_state(&self) -> (s: String)
        requires
            self.wf(),
        ensures
            s@ == state_render(*self),
    {
        let mut s = String::new();
        proof {
            reveal_strlit(" ");
            reveal_strlit("\n");
        }
        push_decimal(&mut s, self.width);
        s.append(" ");
        push_decimal(&mut s, self.height);
        s.append(" ");
        push_decimal(&mut s, self.mine_count);
        s.append("\n");
        s.append(self.seed.as_str());
        s.append("\n");
        let ghost header = s@;
        proof {
            assert(header =~= dec_rep(self.width as nat) + seq![' '] + dec_rep(
                self.height as nat,
            ) + seq![' '] + dec_rep(self.mine_count as nat) + seq!['\n'] + self.seed@
                + seq!['\n']);
            assert(header + cells_render(self.cells@, self.width as int, 0) =~= state_render(
                *self,
            ));
        }
        let n = self.cells.len();
        let mut i: usize = 0;
        while i < n
            invariant
                i <= n,
                n == self.cells@.len(),
                self.wf(),
                s@ + cells_render(self.cells@, self.width as int, i as int) == state_render(
                    *self,
                ),
            decreases n - i,
        {
            let ghost pre = s@;
            let c = self.cells[i];
            proof {
                reveal_strlit("0");
                reveal_strlit("1");
                reveal_strlit(" ");
                reveal_strlit("\n");
            }
            if c.revealed {
                s.append("1");
            } else {
                s.append("0");
            }
            if c.flag {
                s.append("1");
            } else {
                s.append("0");
            }
            if (i + 1) % self.width == 0 {
                s.append("\n");
            } else {
                s.append(" ");
            }
            proof {
                let w = self.width as int;
                let cs = self.cells@;
                let sep = if (i as int + 1) % w == 0 {
                    '\n'
                } else {
                    ' '
                };
                assert(s@ =~= pre + (cell_token(c) + seq![sep]));
                assert(cells_render(cs, w, i as int) == cell_token(cs[i as int]) + seq![sep]
                    + cells_render(cs, w, i as int + 1));
                assert(s@ + cells_render(cs, w, i as int + 1) =~= pre + cells_render(
                    cs,
                    w,
                    i as int,
                ));
            }
            i += 1;
        }
        proof {
            assert(cells_render(self.cells@, self.width as int, n as int)
                =~= Seq::<char>::empty());
            assert(s@ + cells_render(self.cells@, self.width as int, n as int) =~= s@);
        }
        s
    }
}

} // verus!
