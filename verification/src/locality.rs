//! What a scanner finds depends only on the bytes that it scans.
//!
//! The same bytes at another place, in another source, are read as the same
//! token. For a word what follows matters too, but only in that it must not
//! belong to the word.

use vstd::prelude::*;
use crate::ascii;
use crate::lexer::{Fault, Group, Op, byte_at, continues_word, dollars_at, double_quote_from,
    ends_word, escaped_from, expansion_at, find_byte, group_from, lemma_double_quote_bounds,
    lemma_escaped_bounds, lemma_expansion_bounds, lemma_find_byte, lemma_group_bounds,
    lemma_quoted_bounds, lemma_word_bounds, opens_expansion, operator_at, past_escape, quoted_at,
    starts_dollar_quote, starts_expansion, starts_process_substitution, starts_quoted, takes_paren,
    word_from};

verus! {

/// Whether the bytes `j..k` of `b` stand in `b2` too, `d` further on.
pub open spec fn agree(b: Seq<u8>, b2: Seq<u8>, j: int, k: int, d: int) -> bool {
    &&& 0 <= j <= k <= b.len()
    &&& 0 <= j + d
    &&& k + d <= b2.len()
    &&& forall|x: int| j <= x < k ==> #[trigger] b[x] == b2[x + d]
}

/// A byte is found at the same place.
pub proof fn lemma_find_byte_shift(b: Seq<u8>, b2: Seq<u8>, j: int, c: u8, d: int)
    requires
        0 <= j <= b.len(),
        find_byte(b, j, c) < b.len(),
        agree(b, b2, j, find_byte(b, j, c) + 1, d),
    ensures
        find_byte(b2, j + d, c) == find_byte(b, j, c) + d,
    decreases b.len() - j,
{
    lemma_find_byte(b, j, c);
    assert(b[j] == b2[j + d]);
    if b[j] != c {
        lemma_find_byte(b, j + 1, c);
        lemma_find_byte_shift(b, b2, j + 1, c, d);
    }
}

proof fn lemma_escaped_shift(b: Seq<u8>, b2: Seq<u8>, close: u8, i: int, j: int, d: int)
    requires
        0 <= j <= b.len(),
        escaped_from(b, close, i, j) is Ok,
        agree(b, b2, j, escaped_from(b, close, i, j)->Ok_0, d),
    ensures
        escaped_from(b2, close, i + d, j + d) == Ok::<int, Fault>(
            escaped_from(b, close, i, j)->Ok_0 + d,
        ),
    decreases b.len() - j,
{
    lemma_escaped_bounds(b, close, i, j);
    assert(b[j] == b2[j + d]);
    if b[j] == ascii::BACKSLASH {
        let n = past_escape(b, j);
        lemma_escaped_bounds(b, close, i, n);
        lemma_escaped_shift(b, b2, close, i, n, d);
    } else if b[j] != close {
        lemma_escaped_shift(b, b2, close, i, j + 1, d);
    }
}

/// Whether the byte `c` behind `$$` means nothing.
pub open spec fn plain_behind(c: u8) -> bool {
    !opens_expansion(c) && c != ascii::SINGLE_QUOTE
}

/// Expansions start at the same places.
proof fn lemma_starts_shift(b: Seq<u8>, b2: Seq<u8>, j: int, k: int, d: int)
    requires
        agree(b, b2, j, k, d),
        j + 1 < k,
        j + 2 == k && dollars_at(b, j) ==> {
            ||| byte_at(b2, k + d) == byte_at(b, k)
            ||| plain_behind(byte_at(b2, k + d)) && plain_behind(byte_at(b, k))
        },
    ensures
        starts_expansion(b2, j + d) == starts_expansion(b, j),
        starts_quoted(b2, j + d) == starts_quoted(b, j),
{
    assert(b[j] == b2[j + d]);
    assert(b[j + 1] == b2[j + 1 + d]);
    if j + 2 < k {
        assert(b[j + 2] == b2[j + 2 + d]);
    }
}

proof fn lemma_expansion_shift(b: Seq<u8>, b2: Seq<u8>, j: int, d: int)
    requires
        0 <= j < b.len(),
        starts_expansion(b, j),
        expansion_at(b, j) is Ok,
        agree(b, b2, j, expansion_at(b, j)->Ok_0, d),
    ensures
        starts_expansion(b2, j + d),
        expansion_at(b2, j + d) == Ok::<int, Fault>(expansion_at(b, j)->Ok_0 + d),
    decreases b.len() - j, 0int,
{
    lemma_expansion_bounds(b, j);
    assert(b[j] == b2[j + d]);
    if b[j] == ascii::BACKQUOTE {
        lemma_escaped_bounds(b, ascii::BACKQUOTE, j, j + 1);
        lemma_escaped_shift(b, b2, ascii::BACKQUOTE, j, j + 1, d);
    } else if byte_at(b, j + 1) == ascii::LPAREN {
        lemma_group_bounds(b, Group::Paren, j + 1, j + 2, 1);
        assert(b[j + 1] == b2[j + 1 + d]);
        lemma_group_shift(b, b2, Group::Paren, j + 1, j + 2, 1, d);
    } else if byte_at(b, j + 1) == ascii::DOLLAR {
        if byte_at(b, j + 2) == ascii::LPAREN {
            lemma_group_bounds(b, Group::Paren, j + 2, j + 3, 1);
            lemma_group_shift(b, b2, Group::Paren, j + 2, j + 3, 1, d);
        } else if byte_at(b, j + 2) == ascii::LBRACE {
            lemma_group_bounds(b, Group::Brace, j + 1, j + 3, 1);
            lemma_group_shift(b, b2, Group::Brace, j + 1, j + 3, 1, d);
        }
        assert(b[j + 1] == b2[j + 1 + d]);
        assert(b[j + 2] == b2[j + 2 + d]);
    } else {
        lemma_group_bounds(b, Group::Brace, j, j + 2, 1);
        assert(b[j + 1] == b2[j + 1 + d]);
        assert(b[j + 2] == b2[j + 2 + d]);
        lemma_group_shift(b, b2, Group::Brace, j, j + 2, 1, d);
    }
}

proof fn lemma_quoted_shift(b: Seq<u8>, b2: Seq<u8>, j: int, d: int)
    requires
        0 <= j < b.len(),
        starts_quoted(b, j),
        quoted_at(b, j) is Ok,
        agree(b, b2, j, quoted_at(b, j)->Ok_0, d),
    ensures
        starts_quoted(b2, j + d),
        quoted_at(b2, j + d) == Ok::<int, Fault>(quoted_at(b, j)->Ok_0 + d),
    decreases b.len() - j, 1int,
{
    lemma_quoted_bounds(b, j);
    assert(b[j] == b2[j + d]);
    if b[j] == ascii::SINGLE_QUOTE {
        lemma_find_byte(b, j + 1, ascii::SINGLE_QUOTE);
        lemma_find_byte_shift(b, b2, j + 1, ascii::SINGLE_QUOTE, d);
    } else if b[j] == ascii::DOUBLE_QUOTE {
        lemma_double_quote_bounds(b, j, j + 1);
        lemma_double_quote_shift(b, b2, j, j + 1, d);
    } else if starts_dollar_quote(b, j) {
        lemma_escaped_bounds(b, ascii::SINGLE_QUOTE, j + 1, j + 2);
        assert(b[j + 1] == b2[j + 1 + d]);
        lemma_escaped_shift(b, b2, ascii::SINGLE_QUOTE, j + 1, j + 2, d);
    } else if dollars_at(b, j) && byte_at(b, j + 2) == ascii::SINGLE_QUOTE {
        lemma_find_byte(b, j + 3, ascii::SINGLE_QUOTE);
        assert(b[j + 1] == b2[j + 1 + d]);
        assert(b[j + 2] == b2[j + 2 + d]);
        lemma_find_byte_shift(b, b2, j + 3, ascii::SINGLE_QUOTE, d);
    } else {
        lemma_expansion_shift(b, b2, j, d);
    }
}

proof fn lemma_double_quote_shift(b: Seq<u8>, b2: Seq<u8>, i: int, j: int, d: int)
    requires
        0 <= j <= b.len(),
        double_quote_from(b, i, j) is Ok,
        agree(b, b2, j, double_quote_from(b, i, j)->Ok_0, d),
    ensures
        double_quote_from(b2, i + d, j + d) == Ok::<int, Fault>(
            double_quote_from(b, i, j)->Ok_0 + d,
        ),
    decreases b.len() - j, 2int,
{
    let k = double_quote_from(b, i, j)->Ok_0;
    lemma_double_quote_bounds(b, i, j);
    assert(b[j] == b2[j + d]);
    if b[j] != ascii::DOUBLE_QUOTE {
        if b[j] == ascii::BACKSLASH {
            let n = past_escape(b, j);
            lemma_double_quote_bounds(b, i, n);
            lemma_double_quote_shift(b, b2, i, n, d);
        } else if starts_expansion(b, j) {
            lemma_expansion_bounds(b, j);
            let e = expansion_at(b, j)->Ok_0;
            lemma_double_quote_bounds(b, i, e);
            lemma_expansion_shift(b, b2, j, d);
            lemma_double_quote_shift(b, b2, i, e, d);
        } else {
            lemma_double_quote_bounds(b, i, j + 1);
            lemma_starts_shift(b, b2, j, k, d);
            lemma_double_quote_shift(b, b2, i, j + 1, d);
        }
    }
}

pub proof fn lemma_group_shift(
    b: Seq<u8>,
    b2: Seq<u8>,
    g: Group,
    i: int,
    j: int,
    depth: nat,
    d: int,
)
    requires
        0 <= j <= b.len(),
        group_from(b, g, i, j, depth) is Ok,
        agree(b, b2, j, group_from(b, g, i, j, depth)->Ok_0, d),
    ensures
        group_from(b2, g, i + d, j + d, depth) == Ok::<int, Fault>(
            group_from(b, g, i, j, depth)->Ok_0 + d,
        ),
    decreases b.len() - j, 2int,
{
    let k = group_from(b, g, i, j, depth)->Ok_0;
    lemma_group_bounds(b, g, i, j, depth);
    assert(b[j] == b2[j + d]);
    if b[j] == ascii::BACKSLASH {
        let n = past_escape(b, j);
        lemma_group_bounds(b, g, i, n, depth);
        lemma_group_shift(b, b2, g, i, n, depth, d);
    } else if starts_quoted(b, j) {
        lemma_quoted_bounds(b, j);
        let e = quoted_at(b, j)->Ok_0;
        lemma_group_bounds(b, g, i, e, depth);
        lemma_quoted_shift(b, b2, j, d);
        lemma_group_shift(b, b2, g, i, e, depth, d);
    } else if b[j] == g.opening() {
        lemma_group_bounds(b, g, i, j + 1, depth + 1);
        lemma_starts_shift(b, b2, j, k, d);
        lemma_group_shift(b, b2, g, i, j + 1, depth + 1, d);
    } else if b[j] == g.closing() {
        if depth > 1 {
            lemma_group_bounds(b, g, i, j + 1, (depth - 1) as nat);
            lemma_starts_shift(b, b2, j, k, d);
            lemma_group_shift(b, b2, g, i, j + 1, (depth - 1) as nat, d);
        }
    } else {
        lemma_group_bounds(b, g, i, j + 1, depth);
        lemma_starts_shift(b, b2, j, k, d);
        lemma_group_shift(b, b2, g, i, j + 1, depth, d);
    }
}

/// Whether a word that reaches `q` ends there: nothing at `q` belongs to it, and
/// nothing there makes an expansion out of its last byte.
pub open spec fn ends_at(b: Seq<u8>, q: int) -> bool {
    &&& 0 <= q <= b.len()
    &&& q < b.len() ==> ends_word(b[q]) && b[q] != ascii::LPAREN && !continues_word(b, q)
}

/// Whether a word that ends at `k` in `b` ends at the same place in `b2`.
pub open spec fn ends_alike(b: Seq<u8>, b2: Seq<u8>, k: int, d: int) -> bool {
    ||| ends_at(b2, k + d)
    ||| {
        &&& 0 <= k < b.len()
        &&& 0 <= k + d < b2.len()
        &&& b2[k + d] == b[k]
        &&& !continues_word(b2, k + d)
    }
}

/// The same bytes are the same word, if they end as a word and the word does not
/// end in a backslash that would escape what follows.
pub proof fn lemma_word_shift(b: Seq<u8>, b2: Seq<u8>, j: int, d: int)
    requires
        0 <= j <= b.len(),
        word_from(b, j) is Ok,
        agree(b, b2, j, word_from(b, j)->Ok_0, d),
        ends_alike(b, b2, word_from(b, j)->Ok_0, d),
        word_from(b, j)->Ok_0 < b.len() || (j < b.len() && b[b.len() - 1] != ascii::BACKSLASH),
    ensures
        word_from(b2, j + d) == Ok::<int, Fault>(word_from(b, j)->Ok_0 + d),
    decreases b.len() - j, 0int,
{
    let k = word_from(b, j)->Ok_0;
    lemma_word_bounds(b, j);
    if j < k {
        assert(b[j] == b2[j + d]);
        if b[j] == ascii::BACKSLASH {
            let n = past_escape(b, j);
            lemma_word_bounds(b, n);
            if n < k || k < b.len() {
                lemma_word_shift_rest(b, b2, n, k, d);
            } else {
                // The escape is the last of the bytes: two of them, since the
                // last is no backslash.
                assert(n == j + 2);
                lemma_word_shift_rest(b, b2, n, k, d);
            }
        } else if starts_quoted(b, j) {
            lemma_quoted_bounds(b, j);
            let e = quoted_at(b, j)->Ok_0;
            lemma_word_bounds(b, e);
            lemma_quoted_shift(b, b2, j, d);
            lemma_word_shift_rest(b, b2, e, k, d);
        } else if takes_paren(b[j]) && byte_at(b, j + 1) == ascii::LPAREN {
            lemma_group_bounds(b, Group::Paren, j + 1, j + 2, 1);
            let e = group_from(b, Group::Paren, j + 1, j + 2, 1)->Ok_0;
            lemma_word_bounds(b, e);
            assert(b[j + 1] == b2[j + 1 + d]);
            lemma_group_shift(b, b2, Group::Paren, j + 1, j + 2, 1, d);
            lemma_word_shift_rest(b, b2, e, k, d);
        } else {
            lemma_word_bounds(b, j + 1);
            if j + 1 < k {
                lemma_starts_shift(b, b2, j, k, d);
                assert(b[j + 1] == b2[j + 1 + d]);
            }
            lemma_word_shift_rest(b, b2, j + 1, k, d);
        }
    }
}

/// The rest of a word, which may be nothing.
proof fn lemma_word_shift_rest(b: Seq<u8>, b2: Seq<u8>, j: int, k: int, d: int)
    requires
        0 < j <= b.len(),
        word_from(b, j) == Ok::<int, Fault>(k),
        agree(b, b2, j, k, d),
        ends_alike(b, b2, k, d),
        k < b.len() || b[b.len() - 1] != ascii::BACKSLASH,
    ensures
        word_from(b2, j + d) == Ok::<int, Fault>(k + d),
    decreases b.len() - j, 1int,
{
    lemma_word_bounds(b, j);
    if j < k {
        lemma_word_shift(b, b2, j, d);
    } else if k + d < b2.len() {
        assert(!continues_word(b2, k + d));
    }
}

/// The same bytes are the same operator, if the byte behind them does not make
/// them part of a longer one.
pub proof fn lemma_operator_shift(b: Seq<u8>, b2: Seq<u8>, j: int, d: int)
    requires
        0 <= j < b.len(),
        operator_at(b, j) is Some,
        agree(b, b2, j, j + operator_at(b, j)->Some_0.spelling().len(), d),
        ({
            let op = operator_at(b, j)->Some_0;
            let k = j + op.spelling().len();
            op == Op::LParen || op == Op::RParen || byte_at(b2, k + d) == byte_at(b, k)
        }),
    ensures
        operator_at(b2, j + d) == operator_at(b, j),
        starts_process_substitution(b2, j + d) == starts_process_substitution(b, j),
{
    let op = operator_at(b, j)->Some_0;
    let n = op.spelling().len();
    crate::lexer::law_operator_longest_match(b, j, op);
    assert(b[j] == b2[j + d]);
    if n >= 2 {
        assert(b[j + 1] == b2[j + 1 + d]);
    }
    if n >= 3 {
        assert(b[j + 2] == b2[j + 2 + d]);
    }
}

} // verus!
