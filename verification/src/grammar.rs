//! What parsing means: the expression that a sequence of tokens holds.
//!
//! The functions `primary`, `unary`, `binary` and `expression` follow the
//! rules below.  `reads` says the same without a procedure: which trees are
//! written with which tokens.  The two agree, as
//! `lemma_expression_characterized` shows.
//!
//! ```text
//! expression     -> equality
//! equality       -> comparison ( ( "!=" | "==" ) comparison )*
//! comparison     -> addition ( ( ">" | ">=" | "<" | "<=" ) addition )*
//! addition       -> multiplication ( ( "-" | "+" ) multiplication )*
//! multiplication -> unary ( ( "/" | "*" ) unary )*
//! unary          -> ( "!" | "-" ) unary | primary
//! primary        -> NUMBER | STRING | "false" | "true" | "nil"
//!                 | "(" expression ")"
//! ```

use vstd::prelude::*;
use crate::expr::ExprView;
use crate::lox::{error_at_token, ErrorView};
use crate::token::{LiteralView, TokenType, TokenView};

verus! {

/// The four tiers of binary operators, from the one that binds tightest.
pub ghost enum Tier {
    Multiplication,
    Addition,
    Comparison,
    Equality,
}

/// The place of a tier among the tiers: the higher, the looser it binds.
pub open spec fn rank(tier: Tier) -> nat {
    match tier {
        Tier::Multiplication => 1,
        Tier::Addition => 2,
        Tier::Comparison => 3,
        Tier::Equality => 4,
    }
}

/// The operators of a tier.
pub open spec fn is_operator(tier: Tier, token_type: TokenType) -> bool {
    match tier {
        Tier::Multiplication => token_type == TokenType::Slash || token_type == TokenType::Star,
        Tier::Addition => token_type == TokenType::Minus || token_type == TokenType::Plus,
        Tier::Comparison => token_type == TokenType::Greater || token_type
            == TokenType::GreaterEqual || token_type == TokenType::Less || token_type
            == TokenType::LessEqual,
        Tier::Equality => token_type == TokenType::BangEqual || token_type
            == TokenType::EqualEqual,
    }
}

/// The operators that stand before their operand.
pub open spec fn is_prefix_operator(token_type: TokenType) -> bool {
    token_type == TokenType::Bang || token_type == TokenType::Minus
}

/// The category of the token at `pos`; beyond the tokens, the end of input.
pub open spec fn kind_at(tokens: Seq<TokenView>, pos: int) -> TokenType {
    if 0 <= pos < tokens.len() {
        tokens[pos].token_type
    } else {
        TokenType::Eof
    }
}

/// An end-of-input token stands at `from` or after it.
pub open spec fn has_end(tokens: Seq<TokenView>, from: int) -> bool {
    exists|i: int| from <= i < tokens.len() && (#[trigger] tokens[i]).token_type == TokenType::Eof
}

/// What parsing from a position gives: an expression and the position after
/// it, or a fault and the position of the token it was found at.
pub ghost enum Parsed {
    Tree { expr: ExprView, next: int },
    Fault { error: ErrorView, at: int },
}

/// The fault of finding `tokens[at]` where something else was expected.
pub open spec fn fault_at(tokens: Seq<TokenView>, at: int, message: Seq<char>) -> Parsed {
    Parsed::Fault { error: error_at_token(tokens[at], message), at }
}

/// A literal, or an expression in parentheses.
pub open spec fn primary(tokens: Seq<TokenView>, pos: int) -> Parsed
    decreases tokens.len() - pos, 0nat, 0nat,
{
    let token_type = kind_at(tokens, pos);
    if token_type == TokenType::False {
        Parsed::Tree { expr: ExprView::Literal(LiteralView::Bool(false)), next: pos + 1 }
    } else if token_type == TokenType::True {
        Parsed::Tree { expr: ExprView::Literal(LiteralView::Bool(true)), next: pos + 1 }
    } else if token_type == TokenType::Nil {
        Parsed::Tree { expr: ExprView::Literal(LiteralView::Nil), next: pos + 1 }
    } else if token_type == TokenType::Number || token_type == TokenType::Str {
        Parsed::Tree { expr: ExprView::Literal(tokens[pos].literal), next: pos + 1 }
    } else if token_type == TokenType::LeftParen {
        match expression(tokens, pos + 1) {
            Parsed::Tree { expr, next } => if kind_at(tokens, next) == TokenType::RightParen {
                Parsed::Tree { expr: ExprView::Grouping(Box::new(expr)), next: next + 1 }
            } else {
                fault_at(tokens, next, "Expect ')' after expression."@)
            },
            fault => fault,
        }
    } else {
        fault_at(tokens, pos, "Expect expression."@)
    }
}

/// Any number of prefix operators before a primary expression.
pub open spec fn unary(tokens: Seq<TokenView>, pos: int) -> Parsed
    decreases tokens.len() - pos, 0nat, 1nat,
{
    if is_prefix_operator(kind_at(tokens, pos)) {
        match unary(tokens, pos + 1) {
            Parsed::Tree { expr, next } => Parsed::Tree {
                expr: ExprView::Unary(tokens[pos], Box::new(expr)),
                next,
            },
            fault => fault,
        }
    } else {
        primary(tokens, pos)
    }
}

/// An operand of a tier: an expression of the next tighter tier.
pub open spec fn operand(tokens: Seq<TokenView>, pos: int, tier: Tier) -> Parsed
    decreases tokens.len() - pos, rank(tier), 0nat,
{
    match tier {
        Tier::Multiplication => unary(tokens, pos),
        Tier::Addition => binary(tokens, pos, Tier::Multiplication),
        Tier::Comparison => binary(tokens, pos, Tier::Addition),
        Tier::Equality => binary(tokens, pos, Tier::Comparison),
    }
}

/// Operands of a tier joined by its operators, grouped from the left.
///
/// An operand ends after the position it starts at and within the tokens;
/// only the proof that this definition ends needs the test of it.
pub open spec fn binary(tokens: Seq<TokenView>, pos: int, tier: Tier) -> Parsed
    decreases tokens.len() - pos, rank(tier), 2nat,
{
    match operand(tokens, pos, tier) {
        Parsed::Tree { expr, next } => if pos < next <= tokens.len() {
            rest(tokens, expr, next, tier)
        } else {
            Parsed::Tree { expr, next }
        },
        fault => fault,
    }
}

/// What follows the operands read so far, which make up `left`: as long as
/// an operator of the tier comes next, it joins `left` to the operand
/// after it.
pub open spec fn rest(tokens: Seq<TokenView>, left: ExprView, pos: int, tier: Tier) -> Parsed
    decreases tokens.len() - pos, rank(tier), 1nat,
{
    if is_operator(tier, kind_at(tokens, pos)) {
        match operand(tokens, pos + 1, tier) {
            Parsed::Tree { expr, next } => {
                let joined = ExprView::Binary(Box::new(left), tokens[pos], Box::new(expr));
                if pos < next <= tokens.len() {
                    rest(tokens, joined, next, tier)
                } else {
                    Parsed::Tree { expr: joined, next }
                }
            },
            fault => fault,
        }
    } else {
        Parsed::Tree { expr: left, next: pos }
    }
}

/// An expression: operands joined by the operators that bind loosest.
pub open spec fn expression(tokens: Seq<TokenView>, pos: int) -> Parsed
    decreases tokens.len() - pos, 5nat, 0nat,
{
    binary(tokens, pos, Tier::Equality)
}

/// The number of tokens that an expression is written with.
pub open spec fn width(expr: ExprView) -> nat
    decreases expr,
{
    match expr {
        ExprView::Binary(left, _, right) => width(*left) + 1 + width(*right),
        ExprView::Grouping(inner) => width(*inner) + 2,
        ExprView::Literal(_) => 1,
        ExprView::Unary(_, operand) => 1 + width(*operand),
    }
}

/// The rank of the tier that a binary operator belongs to; zero for every
/// other token.
pub open spec fn operator_rank(token_type: TokenType) -> nat {
    if is_operator(Tier::Multiplication, token_type) {
        1
    } else if is_operator(Tier::Addition, token_type) {
        2
    } else if is_operator(Tier::Comparison, token_type) {
        3
    } else if is_operator(Tier::Equality, token_type) {
        4
    } else {
        0
    }
}

/// How loosely the outermost operator of an expression binds: the rank of
/// its tier for a binary operation, zero for everything else.
pub open spec fn looseness(expr: ExprView) -> nat {
    match expr {
        ExprView::Binary(_, operator, _) => operator_rank(operator.token_type),
        _ => 0,
    }
}

/// The literal value that the token at `pos` stands for, if it is a literal.
pub open spec fn literal_at(tokens: Seq<TokenView>, pos: int) -> Option<LiteralView> {
    let token_type = kind_at(tokens, pos);
    if token_type == TokenType::False {
        Some(LiteralView::Bool(false))
    } else if token_type == TokenType::True {
        Some(LiteralView::Bool(true))
    } else if token_type == TokenType::Nil {
        Some(LiteralView::Nil)
    } else if token_type == TokenType::Number || token_type == TokenType::Str {
        Some(tokens[pos].literal)
    } else {
        None
    }
}

/// `expr` is written with the tokens that start at `pos`, in their order,
/// and in keeping with the tiers: the left operand of a binary operator
/// binds no looser than the operator, the right operand binds tighter, and
/// the operand of a prefix operator is no binary operation.
pub open spec fn reads(expr: ExprView, tokens: Seq<TokenView>, pos: int) -> bool
    decreases expr,
{
    match expr {
        ExprView::Binary(left, operator, right) => {
            &&& reads(*left, tokens, pos)
            &&& 0 <= pos + width(*left) < tokens.len()
            &&& tokens[pos + width(*left)] == operator
            &&& operator_rank(operator.token_type) >= 1
            &&& looseness(*left) <= operator_rank(operator.token_type)
            &&& looseness(*right) < operator_rank(operator.token_type)
            &&& reads(*right, tokens, pos + width(*left) + 1)
        },
        ExprView::Grouping(inner) => {
            &&& kind_at(tokens, pos) == TokenType::LeftParen
            &&& reads(*inner, tokens, pos + 1)
            &&& kind_at(tokens, pos + 1 + width(*inner)) == TokenType::RightParen
        },
        ExprView::Literal(value) => literal_at(tokens, pos) == Some(value),
        ExprView::Unary(operator, operand) => {
            &&& 0 <= pos < tokens.len()
            &&& tokens[pos] == operator
            &&& is_prefix_operator(operator.token_type)
            &&& looseness(*operand) == 0
            &&& reads(*operand, tokens, pos + 1)
        },
    }
}

/// The token at `pos` ends an expression that binds no looser than `rank`:
/// it is no binary operator, or one of a looser tier.
pub open spec fn stops(tokens: Seq<TokenView>, pos: int, rank: int) -> bool {
    operator_rank(kind_at(tokens, pos)) == 0 || operator_rank(kind_at(tokens, pos)) > rank
}

/// `expr` is the expression of tiers up to `rank` that starts at `pos`: it
/// is written with the tokens from `pos` on, binds no looser than `rank`,
/// and the token after it does not prolong it.
pub open spec fn fits(expr: ExprView, tokens: Seq<TokenView>, pos: int, rank: int) -> bool {
    &&& reads(expr, tokens, pos)
    &&& looseness(expr) <= rank
    &&& stops(tokens, pos + width(expr), rank)
}

/// `parsed`, if it is an expression, is the expression of tiers up to `rank`
/// that starts at `pos`, and ends where `parsed` says.  If it is a fault, it
/// was not found before `pos`.
pub open spec fn sound(parsed: Parsed, tokens: Seq<TokenView>, pos: int, rank: int) -> bool {
    match parsed {
        Parsed::Tree { expr, next } => fits(expr, tokens, pos, rank) && next == pos + width(expr),
        Parsed::Fault { at, .. } => pos <= at,
    }
}

/// The operators of a tier are the tokens of its rank.
pub proof fn lemma_operator_rank(tier: Tier, token_type: TokenType)
    ensures
        is_operator(tier, token_type) <==> operator_rank(token_type) == rank(tier),
        is_prefix_operator(token_type) ==> operator_rank(token_type) == 0 || token_type
            == TokenType::Minus,
{
}

/// An expression takes up at least one token, and the tokens that it is
/// written with are tokens of the sequence.
pub proof fn lemma_reads_within(expr: ExprView, tokens: Seq<TokenView>, pos: int)
    requires
        reads(expr, tokens, pos),
    ensures
        0 <= pos < pos + width(expr) <= tokens.len(),
    decreases expr,
{
    match expr {
        ExprView::Binary(left, _, right) => {
            lemma_reads_within(*left, tokens, pos);
            lemma_reads_within(*right, tokens, pos + width(*left) + 1);
        },
        ExprView::Grouping(inner) => {
            lemma_reads_within(*inner, tokens, pos + 1);
        },
        ExprView::Literal(_) => {},
        ExprView::Unary(_, operand) => {
            lemma_reads_within(*operand, tokens, pos + 1);
        },
    }
}

/// A primary expression is written with the tokens it was parsed from.
pub proof fn lemma_primary_sound(tokens: Seq<TokenView>, pos: int)
    requires
        0 <= pos,
    ensures
        sound(primary(tokens, pos), tokens, pos, 0),
    decreases tokens.len() - pos, 0nat, 0nat,
{
    if kind_at(tokens, pos) == TokenType::LeftParen {
        lemma_expression_sound(tokens, pos + 1);
    }
}

/// A unary expression is written with the tokens it was parsed from.
pub proof fn lemma_unary_sound(tokens: Seq<TokenView>, pos: int)
    requires
        0 <= pos,
    ensures
        sound(unary(tokens, pos), tokens, pos, 0),
    decreases tokens.len() - pos, 0nat, 1nat,
{
    if is_prefix_operator(kind_at(tokens, pos)) {
        lemma_unary_sound(tokens, pos + 1);
    } else {
        lemma_primary_sound(tokens, pos);
    }
}

/// An operand of a tier is written with the tokens it was parsed from, and
/// binds tighter than the tier.
pub proof fn lemma_operand_sound(tokens: Seq<TokenView>, pos: int, tier: Tier)
    requires
        0 <= pos,
    ensures
        sound(operand(tokens, pos, tier), tokens, pos, rank(tier) - 1),
    decreases tokens.len() - pos, rank(tier), 0nat,
{
    match tier {
        Tier::Multiplication => lemma_unary_sound(tokens, pos),
        Tier::Addition => lemma_binary_sound(tokens, pos, Tier::Multiplication),
        Tier::Comparison => lemma_binary_sound(tokens, pos, Tier::Addition),
        Tier::Equality => lemma_binary_sound(tokens, pos, Tier::Comparison),
    }
}

/// An expression of a tier is written with the tokens it was parsed from,
/// and binds no looser than the tier.
pub proof fn lemma_binary_sound(tokens: Seq<TokenView>, pos: int, tier: Tier)
    requires
        0 <= pos,
    ensures
        sound(binary(tokens, pos, tier), tokens, pos, rank(tier) as int),
    decreases tokens.len() - pos, rank(tier), 2nat,
{
    lemma_operand_sound(tokens, pos, tier);
    match operand(tokens, pos, tier) {
        Parsed::Tree { expr, next } => {
            lemma_reads_within(expr, tokens, pos);
            lemma_rest_sound(tokens, expr, pos, next, tier);
        },
        _ => {},
    }
}

/// Joining further operands to `left`, which is written with the tokens
/// from `start` to `pos`, gives an expression written with the tokens from
/// `start` on.
pub proof fn lemma_rest_sound(
    tokens: Seq<TokenView>,
    left: ExprView,
    start: int,
    pos: int,
    tier: Tier,
)
    requires
        0 <= start,
        reads(left, tokens, start),
        pos == start + width(left),
        looseness(left) <= rank(tier),
        stops(tokens, pos, rank(tier) - 1),
    ensures
        sound(rest(tokens, left, pos, tier), tokens, start, rank(tier) as int),
    decreases tokens.len() - pos, rank(tier), 1nat,
{
    lemma_operator_rank(tier, kind_at(tokens, pos));
    if is_operator(tier, kind_at(tokens, pos)) {
        lemma_operand_sound(tokens, pos + 1, tier);
        match operand(tokens, pos + 1, tier) {
            Parsed::Tree { expr, next } => {
                let joined = ExprView::Binary(Box::new(left), tokens[pos], Box::new(expr));
                assert(reads(joined, tokens, start));
                lemma_reads_within(expr, tokens, pos + 1);
                lemma_rest_sound(tokens, joined, start, next, tier);
            },
            _ => {},
        }
    }
}

/// Parsing is sound: the expression parsed at `pos` is written with the
/// tokens from `pos` up to the position where parsing stops, in their order
/// and in keeping with the tiers of the operators, and no binary operator
/// comes after it.  It takes up at least one token and ends within the
/// tokens.  A fault is never found before `pos`.
pub proof fn lemma_expression_sound(tokens: Seq<TokenView>, pos: int)
    requires
        0 <= pos,
    ensures
        sound(expression(tokens, pos), tokens, pos, 4),
        match expression(tokens, pos) {
            Parsed::Tree { expr, next } => {
                &&& reads(expr, tokens, pos)
                &&& next == pos + width(expr)
                &&& pos < next <= tokens.len()
                &&& operator_rank(kind_at(tokens, next)) == 0
            },
            Parsed::Fault { at, .. } => pos <= at,
        },
    decreases tokens.len() - pos, 5nat, 0nat,
{
    lemma_binary_sound(tokens, pos, Tier::Equality);
    match expression(tokens, pos) {
        Parsed::Tree { expr, next } => {
            lemma_reads_within(expr, tokens, pos);
        },
        _ => {},
    }
}

/// The expression without a binary operator at its top that starts at
/// `pos` is what parsing a unary expression at `pos` gives.
pub proof fn lemma_unary_complete(expr: ExprView, tokens: Seq<TokenView>, pos: int)
    requires
        reads(expr, tokens, pos),
        looseness(expr) == 0,
    ensures
        unary(tokens, pos) == (Parsed::Tree { expr, next: pos + width(expr) }),
    decreases expr, 0nat, 0nat,
{
    match expr {
        ExprView::Binary(_, operator, _) => {
            assert(operator_rank(operator.token_type) >= 1);
        },
        ExprView::Grouping(inner) => {
            lemma_binary_complete(*inner, tokens, pos + 1, Tier::Equality);
            assert(primary(tokens, pos) == (Parsed::Tree { expr, next: pos + width(expr) }));
        },
        ExprView::Literal(_) => {
            assert(primary(tokens, pos) == (Parsed::Tree { expr, next: pos + width(expr) }));
        },
        ExprView::Unary(_, operand) => {
            lemma_unary_complete(*operand, tokens, pos + 1);
        },
    }
}

/// The expression of the tiers tighter than `tier` that starts at `pos` is
/// what parsing an operand of `tier` at `pos` gives.
pub proof fn lemma_operand_complete(expr: ExprView, tokens: Seq<TokenView>, pos: int, tier: Tier)
    requires
        fits(expr, tokens, pos, rank(tier) - 1),
    ensures
        operand(tokens, pos, tier) == (Parsed::Tree { expr, next: pos + width(expr) }),
    decreases expr, rank(tier), 0nat,
{
    match tier {
        Tier::Multiplication => lemma_unary_complete(expr, tokens, pos),
        Tier::Addition => lemma_binary_complete(expr, tokens, pos, Tier::Multiplication),
        Tier::Comparison => lemma_binary_complete(expr, tokens, pos, Tier::Addition),
        Tier::Equality => lemma_binary_complete(expr, tokens, pos, Tier::Comparison),
    }
}

/// Parsing an expression of `tier` at `pos` comes by every expression of
/// that tier that starts at `pos` and that only an operator of the tier can
/// prolong: from there it goes on as from any operands read.
pub proof fn lemma_binary_passes(expr: ExprView, tokens: Seq<TokenView>, pos: int, tier: Tier)
    requires
        reads(expr, tokens, pos),
        looseness(expr) <= rank(tier),
        stops(tokens, pos + width(expr), rank(tier) - 1),
    ensures
        binary(tokens, pos, tier) == rest(tokens, expr, pos + width(expr), tier),
    decreases expr, rank(tier), 1nat,
{
    lemma_reads_within(expr, tokens, pos);
    if looseness(expr) < rank(tier) {
        lemma_operand_complete(expr, tokens, pos, tier);
    } else {
        match expr {
            ExprView::Binary(left, operator, right) => {
                let at = pos + width(*left);
                lemma_operator_rank(tier, operator.token_type);
                lemma_binary_passes(*left, tokens, pos, tier);
                lemma_operand_complete(*right, tokens, at + 1, tier);
                lemma_reads_within(*right, tokens, at + 1);
            },
            _ => {},
        }
    }
}

/// The expression of the tiers up to `tier` that starts at `pos` is what
/// parsing an expression of `tier` at `pos` gives.
pub proof fn lemma_binary_complete(expr: ExprView, tokens: Seq<TokenView>, pos: int, tier: Tier)
    requires
        fits(expr, tokens, pos, rank(tier) as int),
    ensures
        binary(tokens, pos, tier) == (Parsed::Tree { expr, next: pos + width(expr) }),
    decreases expr, rank(tier), 2nat,
{
    lemma_binary_passes(expr, tokens, pos, tier);
    lemma_operator_rank(tier, kind_at(tokens, pos + width(expr)));
}

/// Parsing is complete: an expression that is written with the tokens from
/// `pos` on, in keeping with the tiers, and that no binary operator comes
/// after, is the expression that parsing at `pos` gives.
pub proof fn lemma_expression_complete(expr: ExprView, tokens: Seq<TokenView>, pos: int)
    requires
        reads(expr, tokens, pos),
        operator_rank(kind_at(tokens, pos + width(expr))) == 0,
    ensures
        expression(tokens, pos) == (Parsed::Tree { expr, next: pos + width(expr) }),
{
    lemma_operator_rank(Tier::Equality, TokenType::Eof);
    lemma_looseness_bound(expr);
    lemma_binary_complete(expr, tokens, pos, Tier::Equality);
}

/// No expression binds looser than the loosest tier.
pub proof fn lemma_looseness_bound(expr: ExprView)
    ensures
        looseness(expr) <= 4,
{
}

/// What parsing gives, said without saying how: parsing at `pos` gives
/// `expr` and ends at `next` exactly when `expr` is written with the tokens
/// from `pos` to `next`, in keeping with the tiers, and no binary operator
/// stands at `next`.
pub proof fn lemma_expression_characterized(
    expr: ExprView,
    next: int,
    tokens: Seq<TokenView>,
    pos: int,
)
    requires
        0 <= pos,
    ensures
        expression(tokens, pos) == (Parsed::Tree { expr, next }) <==> {
            &&& reads(expr, tokens, pos)
            &&& next == pos + width(expr)
            &&& operator_rank(kind_at(tokens, next)) == 0
        },
{
    lemma_expression_sound(tokens, pos);
    if reads(expr, tokens, pos) && operator_rank(kind_at(tokens, pos + width(expr))) == 0 {
        lemma_expression_complete(expr, tokens, pos);
    }
}

/// The tokens at which a statement begins.
pub open spec fn starts_statement(token_type: TokenType) -> bool {
    token_type == TokenType::Class || token_type == TokenType::Fun || token_type
        == TokenType::Var || token_type == TokenType::For || token_type == TokenType::If
        || token_type == TokenType::While || token_type == TokenType::Print || token_type
        == TokenType::Return
}

/// A statement may begin at `pos`: the token before it is a semicolon, the
/// token at it begins a statement, or the input ends there.
pub open spec fn is_boundary(tokens: Seq<TokenView>, pos: int) -> bool {
    kind_at(tokens, pos) == TokenType::Eof || kind_at(tokens, pos - 1) == TokenType::Semicolon
        || starts_statement(kind_at(tokens, pos))
}

/// The first position at or after `from` where a statement may begin.
pub open spec fn next_boundary(tokens: Seq<TokenView>, from: int) -> int
    decreases tokens.len() - from,
{
    if is_boundary(tokens, from) {
        from
    } else {
        next_boundary(tokens, from + 1)
    }
}

/// `next_boundary` is the first position at or after `from` where a
/// statement may begin, and lies within the tokens or at their end.
pub proof fn lemma_next_boundary_is_first(tokens: Seq<TokenView>, from: int)
    requires
        0 <= from,
    ensures
        from <= next_boundary(tokens, from),
        from <= tokens.len() ==> next_boundary(tokens, from) <= tokens.len(),
        is_boundary(tokens, next_boundary(tokens, from)),
        forall|pos: int| from <= pos < next_boundary(tokens, from) ==> !is_boundary(tokens, pos),
    decreases tokens.len() - from,
{
    if !is_boundary(tokens, from) {
        lemma_next_boundary_is_first(tokens, from + 1);
    }
}

/// Where parsing resumes after a fault at `pos`: past the token at `pos`, at
/// the first position where a statement may begin.
pub open spec fn resume_point(tokens: Seq<TokenView>, pos: int) -> int {
    if kind_at(tokens, pos) == TokenType::Eof {
        pos
    } else {
        next_boundary(tokens, pos + 1)
    }
}

} // verus!
