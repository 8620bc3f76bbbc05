use vstd::prelude::*;
use crate::coerce::str_eq;
use crate::expression::{Expression, ParseError, split_spec, split_range, evaluateExpression};
use crate::lexer::{Token, copy_token};

verus! {

/// One statement or one control construct (header and body) worth of tokens.
pub struct TokenBlock {
    pub tokens: Vec<(Token, String)>,
}

impl TokenBlock {
    pub fn addItem(&mut self, item: (Token, String))
        ensures
            final(self).tokens@ == old(self).tokens@.push(item),
    {
        self.tokens.push(item);
    }
}

/// The tokens of each block, in order.
pub open spec fn blocks_view(blocks: Seq<TokenBlock>) -> Seq<Seq<(Token, String)>> {
    blocks.map_values(|b: TokenBlock| b.tokens@)
}

/// State of the chunker between two tokens: the sealed blocks, the block being
/// filled and the current brace depth.
pub struct ChunkState {
    pub blocks: Seq<Seq<(Token, String)>>,
    pub cur: Seq<(Token, String)>,
    pub depth: nat,
}

pub open spec fn chunk_start() -> ChunkState {
    ChunkState { blocks: Seq::empty(), cur: Seq::empty(), depth: 0 }
}

/// What one token does to the chunker; `None` when a `}` has no open brace.
pub open spec fn chunk_step(st: ChunkState, t: (Token, String)) -> Option<ChunkState> {
    match t.0 {
        Token::OpenBrace => Some(ChunkState {
            blocks: st.blocks,
            cur: if st.depth == 0 { st.cur.push(t) } else { st.cur },
            depth: st.depth + 1,
        }),
        Token::CloseBrace => if st.depth == 0 {
            None
        } else if st.depth == 1 {
            Some(ChunkState { blocks: st.blocks.push(st.cur.push(t)), cur: Seq::empty(), depth: 0 })
        } else {
            Some(ChunkState { blocks: st.blocks, cur: st.cur, depth: (st.depth - 1) as nat })
        },
        Token::Semicolon => if st.depth == 0 {
            Some(ChunkState { blocks: st.blocks.push(st.cur.push(t)), cur: Seq::empty(), depth: 0 })
        } else {
            Some(ChunkState { blocks: st.blocks, cur: st.cur.push(t), depth: st.depth })
        },
        _ => Some(ChunkState { blocks: st.blocks, cur: st.cur.push(t), depth: st.depth }),
    }
}

/// The chunker's state after reading all of `s`.
pub open spec fn chunk_run(s: Seq<(Token, String)>) -> Option<ChunkState>
    decreases s.len(),
{
    if s.len() == 0 {
        Some(chunk_start())
    } else {
        match chunk_run(s.drop_last()) {
            Some(st) => chunk_step(st, s.last()),
            None => None,
        }
    }
}

/// Once the chunker has failed on a prefix, it fails on the whole stream.
proof fn lemma_chunk_run_fails_on(s: Seq<(Token, String)>, n: int)
    requires
        0 <= n <= s.len(),
        chunk_run(s.subrange(0, n)) is None,
    ensures
        chunk_run(s) is None,
    decreases s.len() - n,
{
    if n < s.len() {
        assert(s.subrange(0, n + 1).drop_last() =~= s.subrange(0, n));
        lemma_chunk_run_fails_on(s, n + 1);
    } else {
        assert(s.subrange(0, n) =~= s);
    }
}

/// Braces and semicolons: the tokens that open, close or end a block.
pub open spec fn is_marker(t: Token) -> bool {
    t == Token::OpenBrace || t == Token::CloseBrace || t == Token::Semicolon
}

/// `s` without its braces and semicolons.
pub open spec fn strip_markers(s: Seq<(Token, String)>) -> Seq<(Token, String)>
    decreases s.len(),
{
    if s.len() == 0 {
        s
    } else if is_marker(s.last().0) {
        strip_markers(s.drop_last())
    } else {
        strip_markers(s.drop_last()).push(s.last())
    }
}

/// The blocks laid end to end.
pub open spec fn concat_blocks(b: Seq<Seq<(Token, String)>>) -> Seq<(Token, String)>
    decreases b.len(),
{
    if b.len() == 0 {
        Seq::empty()
    } else {
        concat_blocks(b.drop_last()) + b.last()
    }
}

/// A stream whose braces balance and whose last statement is terminated, so
/// that the chunker ends with no block left open.
pub open spec fn balanced_and_terminated(s: Seq<(Token, String)>) -> bool {
    chunk_run(s) matches Some(st) && st.depth == 0 && st.cur.len() == 0
}

proof fn lemma_strip_append(a: Seq<(Token, String)>, b: Seq<(Token, String)>)
    ensures
        strip_markers(a + b) == strip_markers(a) + strip_markers(b),
    decreases b.len(),
{
    if b.len() == 0 {
        assert(a + b =~= a);
        assert(strip_markers(a) + strip_markers(b) =~= strip_markers(a));
    } else {
        assert((a + b).drop_last() =~= a + b.drop_last());
        lemma_strip_append(a, b.drop_last());
        if !is_marker(b.last().0) {
            assert(strip_markers(a) + strip_markers(b.drop_last()).push(b.last()) =~= (
            strip_markers(a) + strip_markers(b.drop_last())).push(b.last()));
        }
    }
}

proof fn lemma_chunk_run_keeps_tokens(s: Seq<(Token, String)>)
    requires
        chunk_run(s) is Some,
    ensures
        strip_markers(concat_blocks(chunk_run(s)->Some_0.blocks) + chunk_run(s)->Some_0.cur)
            == strip_markers(s),
    decreases s.len(),
{
    if s.len() == 0 {
        assert(concat_blocks(Seq::empty()) + Seq::<(Token, String)>::empty() =~= Seq::empty());
    } else {
        let p = s.drop_last();
        let t = s.last();
        lemma_chunk_run_keeps_tokens(p);
        let st = chunk_run(p)->Some_0;
        let c = concat_blocks(st.blocks);
        lemma_strip_append(c, st.cur);
        lemma_strip_append(c + st.cur, seq![t]);
        assert(c + st.cur.push(t) =~= (c + st.cur) + seq![t]);
        assert(seq![t].drop_last() =~= Seq::<(Token, String)>::empty());
        assert(s =~= p + seq![t]);
        lemma_strip_append(p, seq![t]);
        let nst = chunk_run(s)->Some_0;
        if nst.blocks.len() > st.blocks.len() {
            assert(nst.blocks.drop_last() =~= st.blocks);
            assert(concat_blocks(nst.blocks) + nst.cur =~= c + st.cur.push(t));
        }
    }
}

/// Chunking loses and duplicates no token: for a stream whose braces balance
/// and whose last statement is terminated, the blocks laid end to end hold the
/// stream's tokens in their order, once braces and semicolons are set aside.
pub proof fn lemma_chunk_preserves_tokens(s: Seq<(Token, String)>)
    requires
        balanced_and_terminated(s),
    ensures
        strip_markers(concat_blocks(chunk_run(s)->Some_0.blocks)) == strip_markers(s),
{
    lemma_chunk_run_keeps_tokens(s);
    let st = chunk_run(s)->Some_0;
    assert(concat_blocks(st.blocks) + st.cur =~= concat_blocks(st.blocks));
}

#[derive(PartialEq, Eq, Structural, Clone, Copy, Debug)]
pub enum ChunkError {
    /// A closing brace with no open brace before it.
    UnbalancedBraces,
}

/// Groups a token stream into statement blocks and brace-delimited blocks.
/// Tokens after the last sealed block (no closing `;` or `}`) are dropped.
pub fn chunkCode(tokens: Vec<(Token, String)>) -> (r: Result<Vec<TokenBlock>, ChunkError>)
    ensures
        match chunk_run(tokens@) {
            Some(st) => r matches Ok(b) && blocks_view(b@) == st.blocks,
            None => r == Err::<Vec<TokenBlock>, ChunkError>(ChunkError::UnbalancedBraces),
        },
{
    let mut blocks: Vec<TokenBlock> = Vec::new();
    let mut current = TokenBlock { tokens: Vec::new() };
    let mut depth: usize = 0;
    let mut i: usize = 0;
    assert(blocks_view(blocks@) =~= Seq::empty());
    assert(tokens@.subrange(0, 0) =~= Seq::empty());
    while i < tokens.len()
        invariant
            i <= tokens.len(),
            depth <= i,
            chunk_run(tokens@.subrange(0, i as int)) == Some(
                ChunkState { blocks: blocks_view(blocks@), cur: current.tokens@, depth: depth as nat },
            ),
        decreases tokens.len() - i,
    {
        let t = copy_token(&tokens[i]);
        assert(tokens@.subrange(0, i + 1).drop_last() =~= tokens@.subrange(0, i as int));
        let ghost prev = blocks@;
        match t.0 {
            Token::OpenBrace => {
                if depth == 0 {
                    current.addItem(t);
                }
                depth = depth + 1;
            },
            Token::CloseBrace => {
                if depth == 0 {
                    proof {
                        lemma_chunk_run_fails_on(tokens@, i + 1);
                    }
                    return Err(ChunkError::UnbalancedBraces);
                }
                depth = depth - 1;
                if depth == 0 {
                    current.addItem(t);
                    blocks.push(current);
                    current = TokenBlock { tokens: Vec::new() };
                    assert(blocks_view(blocks@) =~= blocks_view(prev).push(blocks@.last().tokens@));
                }
            },
            Token::Semicolon => {
                current.addItem(t);
                if depth == 0 {
                    blocks.push(current);
                    current = TokenBlock { tokens: Vec::new() };
                    assert(blocks_view(blocks@) =~= blocks_view(prev).push(blocks@.last().tokens@));
                }
            },
            _ => {
                current.addItem(t);
            },
        }
        i = i + 1;
    }
    assert(tokens@.subrange(0, tokens.len() as int) =~= tokens@);
    Ok(blocks)
}

/// A classified statement. The body of a control block is parsed but not run.
#[derive(Debug)]
pub enum ParsedBlock {
    VarDec { identifier: String, name: String, datatype: String, value: Expression },
    VarSet { name: String, value: Expression },
    PrintVar { name: String },
    ConBlock { identifier: String, condition: Option<Expression>, body: Vec<ParsedBlock> },
    Unrecognized { tokens: Vec<(Token, String)> },
}

/// The length of the longest block.
pub open spec fn max_len(bs: Seq<Seq<(Token, String)>>) -> nat
    decreases bs.len(),
{
    if bs.len() == 0 {
        0
    } else {
        let m = max_len(bs.drop_last());
        if bs.last().len() > m {
            bs.last().len()
        } else {
            m
        }
    }
}

proof fn lemma_max_len(bs: Seq<Seq<(Token, String)>>)
    ensures
        forall|i: int| 0 <= i < bs.len() ==> #[trigger] bs[i].len() <= max_len(bs),
    decreases bs.len(),
{
    if bs.len() > 0 {
        lemma_max_len(bs.drop_last());
        assert forall|i: int| 0 <= i < bs.len() implies #[trigger] bs[i].len() <= max_len(bs) by {
            if i < bs.len() - 1 {
                assert(bs[i] == bs.drop_last()[i]);
            }
        }
    }
}

proof fn lemma_max_len_below(bs: Seq<Seq<(Token, String)>>, n: nat)
    requires
        forall|i: int| 0 <= i < bs.len() ==> #[trigger] bs[i].len() <= n,
    ensures
        max_len(bs) <= n,
    decreases bs.len(),
{
    if bs.len() > 0 {
        assert forall|i: int| 0 <= i < bs.len() - 1 implies #[trigger] bs.drop_last()[i].len() <= n by {
            assert(bs.drop_last()[i] == bs[i]);
        }
        lemma_max_len_below(bs.drop_last(), n);
    }
}

/// No block the chunker makes is longer than its input.
proof fn lemma_chunk_blocks_short(s: Seq<(Token, String)>)
    requires
        chunk_run(s) is Some,
    ensures
        max_len(chunk_run(s)->Some_0.blocks) <= s.len(),
        chunk_run(s)->Some_0.cur.len() <= s.len(),
    decreases s.len(),
{
    if s.len() > 0 {
        lemma_chunk_blocks_short(s.drop_last());
        let st = chunk_run(s.drop_last())->Some_0;
        let nst = chunk_run(s)->Some_0;
        lemma_max_len(st.blocks);
        assert forall|i: int| 0 <= i < nst.blocks.len() implies #[trigger] nst.blocks[i].len()
            <= s.len() by {
            if i < st.blocks.len() {
                assert(nst.blocks[i] == st.blocks[i]);
            }
        }
        lemma_max_len_below(nst.blocks, s.len());
    }
}

/// Where the control-block scan stands: bracket depth, whether the
/// condition is complete, and the condition and body tokens so far.
pub struct ZoneState {
    pub depth: nat,
    pub done: bool,
    pub cond: Seq<(Token, String)>,
    pub body: Seq<(Token, String)>,
}

pub open spec fn is_open(t: Token) -> bool {
    t == Token::OpenParen || t == Token::OpenBrace
}

pub open spec fn is_close(t: Token) -> bool {
    t == Token::CloseParen || t == Token::CloseBrace
}

/// `st` with `t` added to the zone being filled.
pub open spec fn zone_push(st: ZoneState, t: (Token, String)) -> ZoneState {
    if st.done {
        ZoneState { body: st.body.push(t), ..st }
    } else {
        ZoneState { cond: st.cond.push(t), ..st }
    }
}

/// One token of a control block. Tokens inside brackets go to the condition
/// until it is complete, then to the body; the outermost brackets are not
/// kept. The condition is complete at a `)` back at depth 0 followed by `{`,
/// or, for `else`, at its first opening bracket.
pub open spec fn zone_step(st: ZoneState, t: (Token, String), brace_next: bool, is_else: bool) -> Option<ZoneState> {
    if is_open(t.0) {
        let st1 = ZoneState { done: st.done || (st.depth == 0 && is_else), ..st };
        let st2 = if st.depth > 0 {
            zone_push(st1, t)
        } else {
            st1
        };
        Some(ZoneState { depth: st.depth + 1, ..st2 })
    } else if is_close(t.0) {
        if st.depth == 0 {
            None
        } else {
            let d = (st.depth - 1) as nat;
            let st2 = if d > 0 {
                zone_push(st, t)
            } else {
                st
            };
            Some(
                ZoneState {
                    depth: d,
                    done: st2.done || (t.0 == Token::CloseParen && d == 0 && brace_next),
                    ..st2
                },
            )
        }
    } else if st.depth > 0 {
        Some(zone_push(st, t))
    } else {
        Some(st)
    }
}

pub open spec fn is_else(b: Seq<(Token, String)>) -> bool {
    b.len() > 0 && b[0].1@ == "else"@
}

/// The scan after the first `n` tokens of `b`.
pub open spec fn zone_run(b: Seq<(Token, String)>, n: int) -> Option<ZoneState>
    decreases n,
{
    if n <= 0 {
        Some(ZoneState { depth: 0, done: false, cond: Seq::empty(), body: Seq::empty() })
    } else {
        match zone_run(b, n - 1) {
            None => None,
            Some(st) => zone_step(
                st,
                b[n - 1],
                n < b.len() && b[n].0 == Token::OpenBrace,
                is_else(b),
            ),
        }
    }
}

proof fn lemma_zone_sizes(b: Seq<(Token, String)>, n: int)
    requires
        1 <= n <= b.len(),
        b[0].0 == Token::ControlBlock,
        zone_run(b, n) is Some,
    ensures
        zone_run(b, n)->Some_0.cond.len() + zone_run(b, n)->Some_0.body.len() < n,
    decreases n,
{
    let prev = zone_run(b, n - 1);
    if n > 1 {
        lemma_zone_sizes(b, n - 1);
    } else {
        assert(prev->Some_0.cond.len() == 0 && prev->Some_0.body.len() == 0);
        assert(!is_open(b[0].0) && !is_close(b[0].0));
    }
}

/// Index of the first `=` at or after `i`.
pub open spec fn first_equals(b: Seq<(Token, String)>, i: int) -> Option<int>
    decreases b.len() - i,
{
    if i < 0 || i >= b.len() {
        None
    } else if b[i].0 == Token::Equals {
        Some(i)
    } else {
        first_equals(b, i + 1)
    }
}

pub open spec fn is_declaration(t: Token) -> bool {
    t == Token::Var || t == Token::Const || t == Token::Sink
}

/// The error, if any, of classifying one block.
pub open spec fn block_error(b: Seq<(Token, String)>) -> Option<ParseError>
    decreases b.len(), 0nat,
{
    if b.len() == 0 {
        None
    } else if is_declaration(b[0].0) {
        if b.len() < 3 {
            Some(ParseError::MalformedStatement)
        } else {
            match first_equals(b, 0) {
                None => Some(ParseError::MalformedStatement),
                Some(q) => match split_spec(b.subrange(q + 1, b.len() as int)) {
                    Err(e) => Some(e),
                    Ok(_) => None,
                },
            }
        }
    } else if b[0].0 == Token::Name {
        if b.len() >= 2 && b[1].0 == Token::Equals {
            match split_spec(b.subrange(2, b.len() as int)) {
                Err(e) => Some(e),
                Ok(_) => None,
            }
        } else {
            None
        }
    } else if b[0].0 == Token::ControlBlock {
        match zone_run(b, b.len() as int) {
            None => Some(ParseError::MalformedStatement),
            Some(z) => if !is_else(b) && split_spec(z.cond) is Err {
                Some(split_spec(z.cond)->Err_0)
            } else {
                match chunk_run(z.body) {
                    None => Some(ParseError::MalformedStatement),
                    Some(c) => if max_len(c.blocks) < b.len() {
                        parse_error(c.blocks)
                    } else {
                        Some(ParseError::MalformedStatement)
                    },
                }
            },
        }
    } else {
        None
    }
}

/// The first error of classifying the blocks, in order.
pub open spec fn parse_error(bs: Seq<Seq<(Token, String)>>) -> Option<ParseError>
    decreases max_len(bs), bs.len(),
{
    if bs.len() == 0 {
        None
    } else {
        match parse_error(bs.drop_last()) {
            Some(e) => Some(e),
            None => block_error(bs.last()),
        }
    }
}

/// `pb` is the statement that the non-empty block `b` classifies as.
pub open spec fn classified(b: Seq<(Token, String)>, pb: ParsedBlock) -> bool
    decreases b.len(), 0nat,
{
    if b.len() == 0 {
        false
    } else if is_declaration(b[0].0) {
        &&& b.len() >= 3
        &&& first_equals(b, 0) matches Some(q)
        &&& pb matches ParsedBlock::VarDec { identifier, name, datatype, value }
        &&& identifier == b[0].1
        &&& name == b[1].1
        &&& datatype == b[2].1
        &&& split_spec(b.subrange(q + 1, b.len() as int)) == Ok::<Expression, ParseError>(value)
    } else if b[0].0 == Token::Name && b.len() >= 2 && b[1].0 == Token::Equals {
        pb matches ParsedBlock::VarSet { name, value } && name == b[0].1 && split_spec(
            b.subrange(2, b.len() as int),
        ) == Ok::<Expression, ParseError>(value)
    } else if b[0].0 == Token::Name && b.len() >= 2 && b[1].0 == Token::Print {
        pb matches ParsedBlock::PrintVar { name } && name == b[0].1
    } else if b[0].0 == Token::ControlBlock {
        &&& zone_run(b, b.len() as int) matches Some(z)
        &&& chunk_run(z.body) matches Some(c)
        &&& max_len(c.blocks) < b.len()
        &&& pb matches ParsedBlock::ConBlock { identifier, condition, body }
        &&& identifier == b[0].1
        &&& condition == (if is_else(b) {
            None
        } else {
            Some(split_spec(z.cond)->Ok_0)
        })
        &&& parsed(c.blocks, body@)
    } else {
        pb matches ParsedBlock::Unrecognized { tokens } && tokens@ == b
    }
}

/// `out` holds the statements of the non-empty blocks of `bs`, in order.
pub open spec fn parsed(bs: Seq<Seq<(Token, String)>>, out: Seq<ParsedBlock>) -> bool
    decreases max_len(bs), bs.len(),
{
    if bs.len() == 0 {
        out.len() == 0
    } else if bs.last().len() == 0 {
        parsed(bs.drop_last(), out)
    } else {
        out.len() > 0 && parsed(bs.drop_last(), out.drop_last()) && classified(
            bs.last(),
            out.last(),
        )
    }
}

proof fn lemma_zone_run_fails_on(b: Seq<(Token, String)>, n: int)
    requires
        0 <= n <= b.len(),
        zone_run(b, n) is None,
    ensures
        zone_run(b, b.len() as int) is None,
    decreases b.len() - n,
{
    if n < b.len() {
        lemma_zone_run_fails_on(b, n + 1);
    }
}

proof fn lemma_parse_error_kept(bs: Seq<Seq<(Token, String)>>, n: int)
    requires
        0 <= n <= bs.len(),
        parse_error(bs.subrange(0, n)) is Some,
    ensures
        parse_error(bs) == parse_error(bs.subrange(0, n)),
    decreases bs.len() - n,
{
    if n < bs.len() {
        assert(bs.subrange(0, n + 1).drop_last() =~= bs.subrange(0, n));
        lemma_parse_error_kept(bs, n + 1);
    } else {
        assert(bs.subrange(0, n) =~= bs);
    }
}

/// Copies a token sequence.
pub fn copy_tokens(v: &Vec<(Token, String)>) -> (r: Vec<(Token, String)>)
    ensures
        r@ == v@,
{
    let mut r: Vec<(Token, String)> = Vec::new();
    let mut i: usize = 0;
    while i < v.len()
        invariant
            i <= v.len(),
            r@ == v@.subrange(0, i as int),
        decreases v.len() - i,
    {
        r.push(copy_token(&v[i]));
        i = i + 1;
        assert(r@ =~= v@.subrange(0, i as int));
    }
    assert(v@.subrange(0, v@.len() as int) =~= v@);
    r
}

/// Separates a control block into its condition and body tokens, as
/// `zone_run` states.
fn control_zones(b: &Vec<(Token, String)>) -> (r: Option<(Vec<(Token, String)>, Vec<(Token, String)>)>)
    requires
        b@.len() > 0,
    ensures
        match zone_run(b@, b@.len() as int) {
            None => r is None,
            Some(z) => r matches Some((c, d)) && c@ == z.cond && d@ == z.body,
        },
{
    let else_kw = str_eq(b[0].1.as_str(), "else");
    let n = b.len();
    let mut depth: usize = 0;
    let mut done = false;
    let mut cond: Vec<(Token, String)> = Vec::new();
    let mut body: Vec<(Token, String)> = Vec::new();
    let mut i: usize = 0;
    while i < n
        invariant
            i <= n,
            n == b@.len(),
            else_kw == is_else(b@),
            depth <= i,
            zone_run(b@, i as int) == Some(
                ZoneState { depth: depth as nat, done, cond: cond@, body: body@ },
            ),
        decreases n - i,
    {
        let t = copy_token(&b[i]);
        let kind = t.0;
        let brace_next = i + 1 < n && b[i + 1].0 == Token::OpenBrace;
        if kind == Token::OpenParen || kind == Token::OpenBrace {
            if depth == 0 && else_kw {
                done = true;
            }
            if depth > 0 {
                if done {
                    body.push(t);
                } else {
                    cond.push(t);
                }
            }
            depth = depth + 1;
        } else if kind == Token::CloseParen || kind == Token::CloseBrace {
            if depth == 0 {
                proof {
                    lemma_zone_run_fails_on(b@, i + 1);
                }
                return None;
            }
            depth = depth - 1;
            if depth > 0 {
                if done {
                    body.push(t);
                } else {
                    cond.push(t);
                }
            }
            if kind == Token::CloseParen && depth == 0 && brace_next {
                done = true;
            }
        } else if depth > 0 {
            if done {
                body.push(t);
            } else {
                cond.push(t);
            }
        }
        i = i + 1;
    }
    Some((cond, body))
}

/// Classifies one non-empty block, as `block_error` and `classified` state.
fn classify_block(b: &Vec<(Token, String)>) -> (r: Result<ParsedBlock, ParseError>)
    requires
        b@.len() > 0,
    ensures
        match block_error(b@) {
            Some(e) => r == Err::<ParsedBlock, ParseError>(e),
            None => r matches Ok(pb) && classified(b@, pb),
        },
    decreases b@.len(), 0nat,
{
    let n = b.len();
    let kind = b[0].0;
    if kind == Token::Var || kind == Token::Const || kind == Token::Sink {
        if n < 3 {
            return Err(ParseError::MalformedStatement);
        }
        let mut q: usize = 0;
        while q < n && b[q].0 != Token::Equals
            invariant
                q <= n,
                n == b@.len(),
                first_equals(b@, 0) == first_equals(b@, q as int),
            decreases n - q,
        {
            q = q + 1;
        }
        if q == n {
            return Err(ParseError::MalformedStatement);
        }
        match split_range(b, q + 1, n) {
            Err(e) => Err(e),
            Ok(value) => Ok(
                ParsedBlock::VarDec {
                    identifier: b[0].1.clone(),
                    name: b[1].1.clone(),
                    datatype: b[2].1.clone(),
                    value,
                },
            ),
        }
    } else if kind == Token::Name && n >= 2 && b[1].0 == Token::Equals {
        match split_range(b, 2, n) {
            Err(e) => Err(e),
            Ok(value) => Ok(ParsedBlock::VarSet { name: b[0].1.clone(), value }),
        }
    } else if kind == Token::Name && n >= 2 && b[1].0 == Token::Print {
        Ok(ParsedBlock::PrintVar { name: b[0].1.clone() })
    } else if kind == Token::ControlBlock {
        match control_zones(b) {
            None => Err(ParseError::MalformedStatement),
            Some((cond, body_tokens)) => {
                let ghost z = zone_run(b@, b@.len() as int)->Some_0;
                let condition = if str_eq(b[0].1.as_str(), "else") {
                    None
                } else {
                    match evaluateExpression(&cond) {
                        Err(e) => {
                            return Err(e);
                        },
                        Ok(x) => Some(x),
                    }
                };
                match chunkCode(body_tokens) {
                    Err(_) => Err(ParseError::MalformedStatement),
                    Ok(blocks) => {
                        proof {
                            lemma_zone_sizes(b@, b@.len() as int);
                            lemma_chunk_blocks_short(z.body);
                        }
                        match parseCode(blocks) {
                            Err(e) => Err(e),
                            Ok(body) => Ok(
                                ParsedBlock::ConBlock {
                                    identifier: b[0].1.clone(),
                                    condition,
                                    body,
                                },
                            ),
                        }
                    },
                }
            },
        }
    } else {
        Ok(ParsedBlock::Unrecognized { tokens: copy_tokens(b) })
    }
}

/// Classifies each non-empty block into a statement, in order; the first
/// block that cannot be classified gives the error.
pub fn parseCode(tokenBlocks: Vec<TokenBlock>) -> (r: Result<Vec<ParsedBlock>, ParseError>)
    ensures
        match parse_error(blocks_view(tokenBlocks@)) {
            Some(e) => r == Err::<Vec<ParsedBlock>, ParseError>(e),
            None => r matches Ok(v) && parsed(blocks_view(tokenBlocks@), v@),
        },
    decreases max_len(blocks_view(tokenBlocks@)), tokenBlocks@.len() + 1,
{
    let ghost bs = blocks_view(tokenBlocks@);
    proof {
        lemma_max_len(bs);
    }
    let mut out: Vec<ParsedBlock> = Vec::new();
    let mut i: usize = 0;
    assert(bs.subrange(0, 0) =~= Seq::<Seq<(Token, String)>>::empty());
    while i < tokenBlocks.len()
        invariant
            i <= tokenBlocks@.len(),
            bs == blocks_view(tokenBlocks@),
            bs.len() == tokenBlocks@.len(),
            forall|j: int| 0 <= j < bs.len() ==> #[trigger] bs[j].len() <= max_len(bs),
            parse_error(bs.subrange(0, i as int)) is None,
            parsed(bs.subrange(0, i as int), out@),
        decreases tokenBlocks@.len() - i,
    {
        let b = &tokenBlocks[i].tokens;
        assert(bs.subrange(0, i + 1).drop_last() =~= bs.subrange(0, i as int));
        assert(bs[i as int] == b@);
        if b.len() > 0 {
            let ghost prev = out@;
            match classify_block(b) {
                Err(e) => {
                    proof {
                        lemma_parse_error_kept(bs, i + 1);
                    }
                    return Err(e);
                },
                Ok(pb) => {
                    out.push(pb);
                    assert(out@.drop_last() =~= prev);
                },
            }
        }
        i = i + 1;
    }
    assert(bs.subrange(0, bs.len() as int) =~= bs);
    Ok(out)
}

} // verus!
