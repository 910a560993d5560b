//! A cheap guard over the token stream, run before a buffer reaches the dusk
//! parser.
//!
//! The dusk parser is recursive descent with no depth limit, so a buffer that
//! nests deeply, a wall of `(((`, a long `****T`, or a `.f.f.f` chain tens of
//! thousands deep, overflows its stack and aborts the whole process. Rust cannot
//! catch a stack overflow, so vesper cannot let one start. This scans the tokens
//! the lexer already produced, which never recurses, and holds a buffer back from
//! the parser when its shape would drive the parser past a safe depth.
//!
//! The limits sit far above any real program. One line runs to thousands of
//! tokens, or brackets nest hundreds deep, only in generated or pathological
//! input, never in code a person writes.

use vstd::prelude::*;

use crate::compiler::token::{Span, Token, TokenKind};

verus! {

/// The most tokens one logical line may hold. A dusk expression parses within a
/// single line, so this bounds how far a chain of prefixes, postfixes, or
/// operands can drive the parser down.
pub const MAX_LINE_TOKENS: u32 = 4096;

/// The deepest `()`, `[]`, or `{}` nesting allowed. Each open bracket is another
/// parser frame, so this caps recursion that spans several lines, like nested
/// blocks or a nested collection literal.
pub const MAX_BRACKET_DEPTH: u32 = 512;

/// Why a buffer was held back from the parser.
#[derive(Clone, Copy, Debug, PartialEq, Eq, Structural)]
pub enum TooComplex {
    /// One line carries more tokens than the parser can descend safely.
    LineTooLong,
    /// Brackets nest deeper than the parser can descend safely.
    NestingTooDeep,
}

/// The message shown for each reason.
pub open spec fn reason_text(why: TooComplex) -> Seq<char> {
    match why {
        TooComplex::LineTooLong => {
            "vesper skipped analysis here: this line holds too many tokens for the dusk parser to descend safely"@
        },
        TooComplex::NestingTooDeep => {
            "vesper skipped analysis here: this nests too deeply for the dusk parser to descend safely"@
        },
    }
}

impl TooComplex {
    /// The message vesper shows in place of the analysis it skipped, so the
    /// silence has a reason the editor can surface.
    pub fn reason(self) -> (text: &'static str)
        ensures
            text@ == reason_text(self),
    {
        match self {
            TooComplex::LineTooLong => {
                "vesper skipped analysis here: this line holds too many tokens for the dusk parser to descend safely"
            },
            TooComplex::NestingTooDeep => {
                "vesper skipped analysis here: this nests too deeply for the dusk parser to descend safely"
            },
        }
    }
}

/// Whether a token opens a bracket.
pub open spec fn opens(kind: TokenKind) -> bool {
    kind is LParen || kind is LBracket || kind is LBrace
}

/// Whether a token closes a bracket.
pub open spec fn closes(kind: TokenKind) -> bool {
    kind is RParen || kind is RBracket || kind is RBrace
}

/// The tokens on token `i`'s line, up to and including it.
pub open spec fn line_tokens(tokens: Seq<Token>, i: int) -> nat
    decreases i,
{
    if i <= 0 || tokens[i].nl_before {
        1
    } else {
        line_tokens(tokens, i - 1) + 1
    }
}

/// How many brackets stand open after the first `i` tokens. A stray closing
/// bracket closes nothing.
pub open spec fn bracket_depth(tokens: Seq<Token>, i: int) -> nat
    decreases i,
{
    if i <= 0 {
        0
    } else {
        let before = bracket_depth(tokens, i - 1);
        if opens(tokens[i - 1].kind) {
            before + 1
        } else if closes(tokens[i - 1].kind) && before > 0 {
            (before - 1) as nat
        } else {
            before
        }
    }
}

/// The limit token `i` crosses, if it crosses one.
pub open spec fn breach(tokens: Seq<Token>, i: int) -> Option<TooComplex> {
    if line_tokens(tokens, i) > MAX_LINE_TOKENS {
        Some(TooComplex::LineTooLong)
    } else if opens(tokens[i].kind) && bracket_depth(tokens, i + 1) > MAX_BRACKET_DEPTH {
        Some(TooComplex::NestingTooDeep)
    } else {
        None
    }
}

/// The first breach at or after token `i`, with the span of the token that makes
/// it.
pub open spec fn first_breach(tokens: Seq<Token>, i: int) -> Option<(TooComplex, Span)>
    decreases tokens.len() - i,
{
    if i >= tokens.len() {
        None
    } else {
        match breach(tokens, i) {
            Some(why) => Some((why, tokens[i].span)),
            None => first_breach(tokens, i + 1),
        }
    }
}

/// What the guard says of a token stream: why it stops, and the token it stops at.
pub open spec fn guarded(tokens: Seq<Token>) -> Option<(TooComplex, Span)> {
    first_breach(tokens, 0)
}

/// The first point, as a byte offset, where the token stream would drive the
/// parser past a safe depth, or nothing when the whole buffer stays within the
/// limits.
pub fn check(tokens: &[Token]) -> (hit: Option<(TooComplex, u32)>)
    ensures
        hit == match guarded(tokens@) {
            Some((why, span)) => Some((why, span.lo)),
            None => None,
        },
{
    match stop(tokens) {
        Some((why, span)) => Some((why, span.lo)),
        None => None,
    }
}

/// The first token that would drive the parser past a safe depth, and why. The
/// scan stops at the first breach, so it stays cheap even on a runaway input.
pub fn stop(tokens: &[Token]) -> (hit: Option<(TooComplex, Span)>)
    ensures
        hit == guarded(tokens@),
{
    let mut on_line: u32 = 0;
    let mut depth: u32 = 0;
    let mut i: usize = 0;
    while i < tokens.len()
        invariant
            0 <= i <= tokens@.len(),
            i == 0 ==> on_line == 0,
            i > 0 ==> on_line == line_tokens(tokens@, i - 1),
            on_line <= MAX_LINE_TOKENS,
            depth == bracket_depth(tokens@, i as int),
            depth <= MAX_BRACKET_DEPTH,
            guarded(tokens@) == first_breach(tokens@, i as int),
        decreases tokens@.len() - i,
    {
        let tok = &tokens[i];
        if tok.nl_before {
            on_line = 0;
        }
        on_line += 1;
        if on_line > MAX_LINE_TOKENS {
            return Some((TooComplex::LineTooLong, tok.span));
        }
        match tok.kind {
            TokenKind::LParen | TokenKind::LBracket | TokenKind::LBrace => {
                depth += 1;
                if depth > MAX_BRACKET_DEPTH {
                    return Some((TooComplex::NestingTooDeep, tok.span));
                }
            },
            TokenKind::RParen | TokenKind::RBracket | TokenKind::RBrace => {
                if depth > 0 {
                    depth -= 1;
                }
            },
            _ => {},
        }
        i += 1;
    }
    None
}

/// From `i` on the guard passes exactly when no token breaches a limit.
proof fn lemma_no_breach(tokens: Seq<Token>, i: int)
    requires
        0 <= i,
    ensures
        first_breach(tokens, i) is None <==> forall|j: int|
            i <= j < tokens.len() ==> #[trigger] breach(tokens, j) is None,
    decreases tokens.len() - i,
{
    if i < tokens.len() {
        lemma_no_breach(tokens, i + 1);
        if breach(tokens, i) is None && first_breach(tokens, i + 1) is None {
            assert forall|j: int| i <= j < tokens.len() implies #[trigger] breach(
                tokens,
                j,
            ) is None by {
                if j > i {
                    assert(breach(tokens, j) is None);
                }
            }
        }
    }
}

/// Depth stays within the limit as long as no opening bracket breaches it.
proof fn lemma_depth_within(tokens: Seq<Token>, n: int)
    requires
        0 <= n <= tokens.len(),
        forall|j: int| 0 <= j < tokens.len() ==> #[trigger] breach(tokens, j) is None,
    ensures
        bracket_depth(tokens, n) <= MAX_BRACKET_DEPTH,
    decreases n,
{
    if n > 0 {
        lemma_depth_within(tokens, n - 1);
        assert(breach(tokens, n - 1) is None);
    }
}

/// A buffer passes the guard exactly when no line of it holds more tokens than
/// allowed and its brackets never nest deeper than allowed.
pub proof fn law_guard_passes_iff_within_limits(tokens: Seq<Token>)
    ensures
        guarded(tokens) is None <==> forall|i: int|
            0 <= i < tokens.len() ==> #[trigger] line_tokens(tokens, i) <= MAX_LINE_TOKENS
                && bracket_depth(tokens, i + 1) <= MAX_BRACKET_DEPTH,
{
    lemma_no_breach(tokens, 0);
    if guarded(tokens) is None {
        assert forall|i: int| 0 <= i < tokens.len() implies #[trigger] line_tokens(tokens, i)
            <= MAX_LINE_TOKENS && bracket_depth(tokens, i + 1) <= MAX_BRACKET_DEPTH by {
            assert(breach(tokens, i) is None);
            lemma_depth_within(tokens, i + 1);
        }
    } else if forall|i: int|
        0 <= i < tokens.len() ==> #[trigger] line_tokens(tokens, i) <= MAX_LINE_TOKENS
            && bracket_depth(tokens, i + 1) <= MAX_BRACKET_DEPTH {
        assert forall|j: int| 0 <= j < tokens.len() implies #[trigger] breach(
            tokens,
            j,
        ) is None by {
            assert(line_tokens(tokens, j) <= MAX_LINE_TOKENS);
        }
    }
}

/// Where the guard holds a buffer back, it names a token that breaches a limit,
/// and no token before that one does.
pub proof fn law_guard_names_the_first_breach(tokens: Seq<Token>)
    requires
        guarded(tokens) is Some,
    ensures
        exists|i: int|
            0 <= i < tokens.len() && #[trigger] breach(tokens, i) == Some(guarded(tokens).unwrap().0)
                && tokens[i].span == guarded(tokens).unwrap().1 && forall|j: int|
                0 <= j < i ==> #[trigger] breach(tokens, j) is None,
{
    lemma_breach_found(tokens, 0);
}

proof fn lemma_breach_found(tokens: Seq<Token>, k: int)
    requires
        0 <= k,
        first_breach(tokens, k) is Some,
        forall|j: int| 0 <= j < k ==> #[trigger] breach(tokens, j) is None,
    ensures
        exists|i: int|
            0 <= i < tokens.len() && #[trigger] breach(tokens, i) == Some(
                first_breach(tokens, k).unwrap().0,
            ) && tokens[i].span == first_breach(tokens, k).unwrap().1 && forall|j: int|
                0 <= j < i ==> #[trigger] breach(tokens, j) is None,
    decreases tokens.len() - k,
{
    if breach(tokens, k) is None {
        lemma_breach_found(tokens, k + 1);
    }
}

/// The tokens after a point do not change what is counted before it.
proof fn lemma_counts_look_back(tokens: Seq<Token>, more: Seq<Token>, i: int)
    requires
        0 <= i <= tokens.len(),
    ensures
        bracket_depth(tokens + more, i) == bracket_depth(tokens, i),
        i < tokens.len() ==> line_tokens(tokens + more, i) == line_tokens(tokens, i),
    decreases i,
{
    if i > 0 {
        lemma_counts_look_back(tokens, more, i - 1);
        assert((tokens + more)[i - 1] == tokens[i - 1]);
    }
    if i < tokens.len() {
        assert((tokens + more)[i] == tokens[i]);
    }
}

/// Once a buffer is held back, more text after the breach changes nothing.
pub proof fn law_guard_stops_at_the_first_breach(tokens: Seq<Token>, more: Seq<Token>)
    requires
        guarded(tokens) is Some,
    ensures
        guarded(tokens + more) == guarded(tokens),
{
    lemma_breach_kept(tokens, more, 0);
}

proof fn lemma_breach_kept(tokens: Seq<Token>, more: Seq<Token>, i: int)
    requires
        0 <= i,
        first_breach(tokens, i) is Some,
    ensures
        first_breach(tokens + more, i) == first_breach(tokens, i),
    decreases tokens.len() - i,
{
    lemma_counts_look_back(tokens, more, i);
    lemma_counts_look_back(tokens, more, i + 1);
    assert((tokens + more)[i] == tokens[i]);
    if breach(tokens, i) is None {
        lemma_breach_kept(tokens, more, i + 1);
    }
}

/// Opening brackets minus closing brackets among the first `i` tokens.
pub open spec fn bracket_balance(tokens: Seq<Token>, i: int) -> int
    decreases i,
{
    if i <= 0 {
        0
    } else {
        bracket_balance(tokens, i - 1) + if opens(tokens[i - 1].kind) {
            1int
        } else if closes(tokens[i - 1].kind) {
            -1int
        } else {
            0int
        }
    }
}

/// Nesting that closes does not accumulate: after a stretch whose brackets all
/// close, as many brackets stand open as before it.
pub proof fn law_closed_nesting_does_not_accumulate(tokens: Seq<Token>, stretch: Seq<Token>)
    requires
        forall|i: int| 0 <= i <= stretch.len() ==> #[trigger] bracket_balance(stretch, i) >= 0,
        bracket_balance(stretch, stretch.len() as int) == 0,
    ensures
        bracket_depth(tokens + stretch, (tokens + stretch).len() as int) == bracket_depth(
            tokens,
            tokens.len() as int,
        ),
{
    lemma_counts_look_back(tokens, stretch, tokens.len() as int);
    lemma_balance_adds(tokens, stretch, stretch.len() as int);
}

proof fn lemma_balance_adds(tokens: Seq<Token>, stretch: Seq<Token>, i: int)
    requires
        0 <= i <= stretch.len(),
        forall|j: int| 0 <= j <= stretch.len() ==> #[trigger] bracket_balance(stretch, j) >= 0,
    ensures
        bracket_depth(tokens + stretch, tokens.len() + i) == bracket_depth(
            tokens,
            tokens.len() as int,
        ) + bracket_balance(stretch, i),
    decreases i,
{
    if i == 0 {
        lemma_counts_look_back(tokens, stretch, tokens.len() as int);
    } else {
        lemma_balance_adds(tokens, stretch, i - 1);
        assert((tokens + stretch)[tokens.len() + i - 1] == stretch[i - 1]);
        assert(bracket_balance(stretch, i) >= 0);
        assert(bracket_balance(stretch, i - 1) >= 0);
    }
}

/// How many of several tokens open a bracket.
pub open spec fn openers(tokens: Seq<Token>) -> nat {
    tokens.filter_map(
        |t: Token|
            match t.kind {
                TokenKind::LParen => Some(()),
                TokenKind::LBracket => Some(()),
                TokenKind::LBrace => Some(()),
                _ => None,
            },
    ).len()
}

/// How many of several tokens close a bracket.
pub open spec fn closers(tokens: Seq<Token>) -> nat {
    tokens.filter_map(
        |t: Token|
            match t.kind {
                TokenKind::RParen => Some(()),
                TokenKind::RBracket => Some(()),
                TokenKind::RBrace => Some(()),
                _ => None,
            },
    ).len()
}

proof fn lemma_bracket_counts(tokens: Seq<Token>, m: int, n: int)
    requires
        0 <= m < n <= tokens.len(),
    ensures
        openers(tokens.subrange(m, n)) == openers(tokens.subrange(m, n - 1)) + if opens(
            tokens[n - 1].kind,
        ) {
            1nat
        } else {
            0nat
        },
        closers(tokens.subrange(m, n)) == closers(tokens.subrange(m, n - 1)) + if closes(
            tokens[n - 1].kind,
        ) {
            1nat
        } else {
            0nat
        },
{
    assert(tokens.subrange(m, n).drop_last() =~= tokens.subrange(m, n - 1));
    assert(tokens.subrange(m, n).last() == tokens[n - 1]);
}

/// As many brackets stand open as some stretch up to here opened and did not close,
/// and no stretch up to here left more.
proof fn lemma_deepest_stretch(tokens: Seq<Token>, n: int) -> (m: int)
    requires
        0 <= n <= tokens.len(),
    ensures
        0 <= m <= n,
        bracket_depth(tokens, n) == openers(tokens.subrange(m, n)) - closers(tokens.subrange(m, n)),
        forall|k: int|
            0 <= k <= n ==> openers(#[trigger] tokens.subrange(k, n)) - closers(
                tokens.subrange(k, n),
            ) <= bracket_depth(tokens, n),
    decreases n,
{
    assert(tokens.subrange(n, n) =~= Seq::empty());
    assert(openers(tokens.subrange(n, n)) == 0);
    assert(closers(tokens.subrange(n, n)) == 0);
    if n == 0 {
        0
    } else {
        let before = lemma_deepest_stretch(tokens, n - 1);
        assert forall|k: int| 0 <= k <= n implies openers(#[trigger] tokens.subrange(k, n))
            - closers(tokens.subrange(k, n)) <= bracket_depth(tokens, n) by {
            if k < n {
                lemma_bracket_counts(tokens, k, n);
                assert(openers(tokens.subrange(k, n - 1)) - closers(tokens.subrange(k, n - 1))
                    <= bracket_depth(tokens, n - 1));
            }
        }
        lemma_bracket_counts(tokens, before, n);
        if closes(tokens[n - 1].kind) && bracket_depth(tokens, n - 1) == 0 {
            n
        } else {
            before
        }
    }
}

/// The tokens of a line are counted from the one that starts it.
proof fn lemma_line_run(tokens: Seq<Token>, b: int, i: int)
    requires
        0 <= b <= i < tokens.len(),
        b == 0 || tokens[b].nl_before,
        forall|j: int| b < j <= i ==> !(#[trigger] tokens[j]).nl_before,
    ensures
        line_tokens(tokens, i) == i - b + 1,
    decreases i - b,
{
    if b < i {
        lemma_line_run(tokens, b, i - 1);
    }
}

/// The token a line starts at.
proof fn lemma_line_start(tokens: Seq<Token>, i: int) -> (b: int)
    requires
        0 <= i < tokens.len(),
    ensures
        0 <= b <= i,
        b == 0 || tokens[b].nl_before,
        forall|j: int| b < j <= i ==> !(#[trigger] tokens[j]).nl_before,
        line_tokens(tokens, i) == i - b + 1,
    decreases i,
{
    if i == 0 || tokens[i].nl_before {
        i
    } else {
        lemma_line_start(tokens, i - 1)
    }
}

/// Whether token `i` is at least the 4097th of its line.
pub open spec fn far_along(tokens: Seq<Token>, i: int) -> bool {
    i >= 4096 && forall|j: int| i - 4096 < j <= i ==> !(#[trigger] tokens[j]).nl_before
}

proof fn lemma_far_along(tokens: Seq<Token>, i: int)
    requires
        0 <= i < tokens.len(),
    ensures
        far_along(tokens, i) <==> line_tokens(tokens, i) > MAX_LINE_TOKENS,
{
    let b = lemma_line_start(tokens, i);
    if far_along(tokens, i) && b > i - 4096 {
        assert(b == 0 || tokens[b].nl_before);
        assert(!tokens[b].nl_before);
    }
}

/// A buffer passes the guard exactly where no token comes more than 4095 tokens after
/// another with no line break between, and no stretch of tokens opens 513 more
/// brackets than it closes.
pub proof fn law_the_guard_allows_lines_of_4096_and_nesting_of_512(tokens: Seq<Token>)
    ensures
        guarded(tokens) is None <==> (forall|i: int|
            0 <= i < tokens.len() ==> !#[trigger] far_along(tokens, i)) && (forall|m: int, n: int|
            0 <= m <= n <= tokens.len() ==> openers(#[trigger] tokens.subrange(m, n)) - closers(
                tokens.subrange(m, n),
            ) <= 512),
{
    law_guard_passes_iff_within_limits(tokens);
    if guarded(tokens) is None {
        assert forall|i: int| 0 <= i < tokens.len() implies !#[trigger] far_along(tokens, i) by {
            lemma_far_along(tokens, i);
            assert(line_tokens(tokens, i) <= MAX_LINE_TOKENS);
        }
        assert forall|m: int, n: int| 0 <= m <= n <= tokens.len() implies openers(
            #[trigger] tokens.subrange(m, n),
        ) - closers(tokens.subrange(m, n)) <= 512 by {
            let deepest = lemma_deepest_stretch(tokens, n);
            if n > 0 {
                assert(line_tokens(tokens, n - 1) <= MAX_LINE_TOKENS);
            }
        }
    }
    if (forall|i: int| 0 <= i < tokens.len() ==> !#[trigger] far_along(tokens, i)) && (forall|
        m: int,
        n: int,
    |
        0 <= m <= n <= tokens.len() ==> openers(#[trigger] tokens.subrange(m, n)) - closers(
            tokens.subrange(m, n),
        ) <= 512) {
        assert forall|i: int| 0 <= i < tokens.len() implies #[trigger] line_tokens(tokens, i)
            <= MAX_LINE_TOKENS && bracket_depth(tokens, i + 1) <= MAX_BRACKET_DEPTH by {
            assert(!far_along(tokens, i));
            lemma_far_along(tokens, i);
            let deepest = lemma_deepest_stretch(tokens, i + 1);
            assert(openers(tokens.subrange(deepest, i + 1)) - closers(
                tokens.subrange(deepest, i + 1),
            ) <= 512);
        }
    }
}

/// Where one more token makes the guard stop, it stops at that token, for its line
/// where the token is at least the 4097th of it, and for its nesting otherwise.
pub proof fn law_the_guard_blames_the_token_that_crosses(tokens: Seq<Token>)
    requires
        tokens.len() > 0,
        guarded(tokens.drop_last()) is None,
        guarded(tokens) is Some,
    ensures
        guarded(tokens) == Some(
            (
                if far_along(tokens, tokens.len() - 1) {
                    TooComplex::LineTooLong
                } else {
                    TooComplex::NestingTooDeep
                },
                tokens.last().span,
            ),
        ),
{
    let front = tokens.drop_last();
    let n = tokens.len() - 1;
    assert(tokens =~= front + seq![tokens.last()]);
    lemma_no_breach(front, 0);
    law_guard_names_the_first_breach(tokens);
    let i = choose|i: int|
        0 <= i < tokens.len() && #[trigger] breach(tokens, i) == Some(guarded(tokens).unwrap().0)
            && tokens[i].span == guarded(tokens).unwrap().1 && forall|j: int|
            0 <= j < i ==> #[trigger] breach(tokens, j) is None;
    if i < n {
        lemma_counts_look_back(front, seq![tokens.last()], i);
        lemma_counts_look_back(front, seq![tokens.last()], i + 1);
        assert(front[i] == tokens[i]);
        assert(breach(front, i) == breach(tokens, i));
    }
    lemma_far_along(tokens, n);
}

/// The two reasons the guard gives read as these sentences.
pub proof fn law_the_reasons_name_what_is_too_much()
    ensures
        reason_text(TooComplex::LineTooLong)
            == "vesper skipped analysis here: this line holds too many tokens for the dusk parser to descend safely"@,
        reason_text(TooComplex::NestingTooDeep)
            == "vesper skipped analysis here: this nests too deeply for the dusk parser to descend safely"@,
{
}

} // verus!
