//! Comparing the listing of a tokenizer's or a parser's result with the
//! listing that is expected.

use crate::chars::{leading_whitespace, lemma_trimmed, trim, trimmed};
use crate::node_type::NodeType;
use crate::range::{byte_len, lemma_part_is_shorter};
use crate::rst::builder::RstBuilder;
use crate::rst::node::{forest_listing, RstFile};
use crate::token::{token_listing, TokenBuilder, TokenFile};
use vstd::prelude::*;

verus! {

/// Whether two texts agree but for whitespace at their ends.
pub open spec fn same_trimmed(actual: Seq<char>, expected: Seq<char>) -> bool {
    trimmed(actual) == trimmed(expected)
}

/// Whether `actual` and `expected` agree but for whitespace at their ends.
pub fn matches_trimmed(actual: &str, expected: &str) -> (same: bool)
    ensures
        same == same_trimmed(actual@, expected@),
{
    let left = trim(actual).to_owned();
    let right = trim(expected).to_owned();
    left == right
}

/// Tokenizes `text` without the whitespace at its ends, and tells whether
/// the listing of the tokens is `expected`, but for whitespace at the ends
/// of the two.
pub fn check_tokenizer<F: Fn(&mut TokenBuilder)>(tokenizer: &F, text: &str, expected: &str) -> (ok:
    bool)
    requires
        byte_len(text@) <= u32::MAX,
        forall|b: &mut TokenBuilder|
            b.wf() && b.is_fresh() && b.text() == trimmed(text@) ==> call_requires(
                *tokenizer,
                (b,),
            ),
        forall|b: &mut TokenBuilder|
            b.wf() && b.is_fresh() && b.text() == trimmed(text@) && call_ensures(
                *tokenizer,
                (b,),
                (),
            ) ==> final(b).wf() && final(b).is_done() && final(b).text() == trimmed(text@),
    ensures
        exists|b: &mut TokenBuilder|
            b.wf() && b.is_fresh() && b.text() == trimmed(text@) && call_ensures(
                *tokenizer,
                (b,),
                (),
            ) && ok == same_trimmed(
                token_listing(trimmed(text@), final(b).emitted()),
                expected@,
            ),
{
    proof {
        lemma_trimmed(text@);
        lemma_part_is_shorter(
            text@,
            leading_whitespace(text@) as int,
            (leading_whitespace(text@) + trimmed(text@).len()) as int,
        );
    }
    let text = trim(text);
    let file = TokenFile::new(text.to_owned(), tokenizer);
    let actual = file.dump();
    matches_trimmed(actual.as_str(), expected)
}

/// Tokenizes and parses `text` without the whitespace at its ends, and
/// tells whether the listing of the tree is `expected`, but for whitespace
/// at the ends of the two.
pub fn check_parser<F: Fn(&mut TokenBuilder), P: Fn(&mut RstBuilder)>(
    tokenizer: &F,
    parser: &P,
    file_type: NodeType,
    text: &str,
    expected: &str,
) -> (ok: bool)
    requires
        byte_len(text@) <= u32::MAX,
        forall|b: &mut TokenBuilder|
            b.wf() && b.is_fresh() && b.text() == trimmed(text@) ==> call_requires(
                *tokenizer,
                (b,),
            ),
        forall|b: &mut TokenBuilder|
            b.wf() && b.is_fresh() && b.text() == trimmed(text@) && call_ensures(
                *tokenizer,
                (b,),
                (),
            ) ==> final(b).wf() && final(b).is_done() && final(b).text() == trimmed(text@),
        forall|b: &mut RstBuilder| b.wf() && b.depth() == 1 ==> call_requires(*parser, (b,)),
        forall|b: &mut RstBuilder|
            b.wf() && b.depth() == 1 && call_ensures(*parser, (b,), ()) ==> final(b).wf()
                && final(b).balanced_since(b),
    ensures
        exists|b: &mut TokenBuilder, p: &mut RstBuilder|
            {
                &&& b.wf() && b.is_fresh() && b.text() == trimmed(text@)
                &&& call_ensures(*tokenizer, (b,), ())
                &&& p.wf() && p.is_opened(file_type, final(b).emitted())
                &&& call_ensures(*parser, (p,), ())
                &&& ok == same_trimmed(
                    forest_listing(trimmed(text@), final(p).closing_tree().children(), 0),
                    expected@,
                )
            },
{
    proof {
        lemma_trimmed(text@);
        lemma_part_is_shorter(
            text@,
            leading_whitespace(text@) as int,
            (leading_whitespace(text@) + trimmed(text@).len()) as int,
        );
    }
    let text = trim(text);
    let file = TokenFile::new(text.to_owned(), tokenizer);
    let rst = RstFile::new(file, file_type, parser);
    let actual = rst.dump();
    matches_trimmed(actual.as_str(), expected)
}

} // verus!
